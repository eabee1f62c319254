//! The seven-bag randomizer.

use super::piece::PieceKind;
use crate::chance::random_below;
use vstd::prelude::*;

verus! {

/// The bitmap with all seven kinds set.
pub const ALL_KINDS: u8 = 0x7f;

/// True if bit `k` of the bitmap `m` is set.
pub open spec fn has_bit(m: u8, k: int) -> bool {
    0 <= k < 8 && (m >> (k as u8)) & 1u8 == 1u8
}

/// The number of kinds with an index below `k` that the bitmap holds.
pub open spec fn kinds_below(m: u8, k: int) -> int
    decreases k,
{
    if k <= 0 {
        0
    } else {
        kinds_below(m, k - 1) + if has_bit(m, k - 1) {
            1int
        } else {
            0int
        }
    }
}

/// True if a sequence holds all seven kinds.
pub open spec fn holds_all(kinds: Seq<PieceKind>) -> bool {
    kinds.contains(PieceKind::S) && kinds.contains(PieceKind::Z) && kinds.contains(PieceKind::J)
        && kinds.contains(PieceKind::L) && kinds.contains(PieceKind::T) && kinds.contains(
        PieceKind::O,
    ) && kinds.contains(PieceKind::I)
}

/// The bitmap of the kinds in a sequence.
pub open spec fn bitmap_of(kinds: Seq<PieceKind>) -> u8
    decreases kinds.len(),
{
    if kinds.len() == 0 {
        0u8
    } else {
        bitmap_of(kinds.drop_last()) | (1u8 << (kinds.last().index() as u8))
    }
}

/// A 7-bag: the kinds that can still be drawn before the bag is refilled.
///
/// The field is a bitmap over the kinds, bit `k` for the kind with index `k`.
/// A full bag is written as the empty bitmap, so the bitmap never holds all
/// seven kinds.
#[derive(Clone, Copy, Debug, PartialEq, Eq, Structural, Hash, PartialOrd, Ord)]
pub struct SevenBag(pub u8);

proof fn lemma_bit_set(m: u8, d: u8, k: int)
    requires
        d < 8,
    ensures
        has_bit(m | (1u8 << d), k) == (k == d || has_bit(m, k)),
{
    if 0 <= k < 8 {
        let q = k as u8;
        assert(((m | (1u8 << d)) >> q) & 1u8 == 1u8 <==> (q == d || (m >> q) & 1u8 == 1u8))
            by (bit_vector)
            requires
                d < 8,
                q < 8,
        ;
    }
}

proof fn lemma_bit_clear(m: u8, d: u8, k: int)
    requires
        d < 8,
    ensures
        has_bit(m & !(1u8 << d), k) == (k != d && has_bit(m, k)),
{
    if 0 <= k < 8 {
        let q = k as u8;
        assert(((m & !(1u8 << d)) >> q) & 1u8 == 1u8 <==> (q != d && (m >> q) & 1u8 == 1u8))
            by (bit_vector)
            requires
                d < 8,
                q < 8,
        ;
    }
}

proof fn lemma_bit_probe(m: u8, d: u8)
    requires
        d < 8,
    ensures
        (m & (1u8 << d) != 0) == has_bit(m, d as int),
{
    assert((m & (1u8 << d) != 0) == ((m >> d) & 1u8 == 1u8)) by (bit_vector)
        requires
            d < 8,
    ;
}

/// A bitmap is determined by its bits.
proof fn lemma_bits_equal(a: u8, b: u8)
    requires
        forall|k: int| 0 <= k < 8 ==> has_bit(a, k) == has_bit(b, k),
    ensures
        a == b,
{
    assert(has_bit(a, 0) == has_bit(b, 0));
    assert(has_bit(a, 1) == has_bit(b, 1));
    assert(has_bit(a, 2) == has_bit(b, 2));
    assert(has_bit(a, 3) == has_bit(b, 3));
    assert(has_bit(a, 4) == has_bit(b, 4));
    assert(has_bit(a, 5) == has_bit(b, 5));
    assert(has_bit(a, 6) == has_bit(b, 6));
    assert(has_bit(a, 7) == has_bit(b, 7));
    assert(((a >> 0u8) & 1u8 == 1u8) == ((b >> 0u8) & 1u8 == 1u8) && ((a >> 1u8) & 1u8 == 1u8) == ((
    b >> 1u8) & 1u8 == 1u8) && ((a >> 2u8) & 1u8 == 1u8) == ((b >> 2u8) & 1u8 == 1u8) && ((a
        >> 3u8) & 1u8 == 1u8) == ((b >> 3u8) & 1u8 == 1u8) && ((a >> 4u8) & 1u8 == 1u8) == ((b
        >> 4u8) & 1u8 == 1u8) && ((a >> 5u8) & 1u8 == 1u8) == ((b >> 5u8) & 1u8 == 1u8) && ((a
        >> 6u8) & 1u8 == 1u8) == ((b >> 6u8) & 1u8 == 1u8) && ((a >> 7u8) & 1u8 == 1u8) == ((b
        >> 7u8) & 1u8 == 1u8) ==> a == b) by (bit_vector);
}

/// The bits of the empty and of the full bitmap.
proof fn lemma_bits_const(k: int)
    ensures
        !has_bit(0u8, k),
        has_bit(0x7fu8, k) == (0 <= k < 7),
{
    if 0 <= k < 8 {
        let q = k as u8;
        assert((0u8 >> q) & 1u8 == 0u8) by (bit_vector)
            requires
                q < 8,
        ;
        assert(((0x7fu8 >> q) & 1u8 == 1u8) == (q < 7)) by (bit_vector)
            requires
                q < 8,
        ;
    }
}

impl SevenBag {
    /// True if the bitmap names kinds only and does not hold all seven.
    pub open spec fn well_formed(self) -> bool {
        self.0 < ALL_KINDS
    }

    /// The kinds that the bitmap holds.
    pub open spec fn stored(self) -> Set<PieceKind> {
        Set::new(|k: PieceKind| has_bit(self.0, k.index()))
    }

    /// The kinds that can still be drawn: all seven when the bitmap is empty.
    pub open spec fn available(self) -> Set<PieceKind> {
        Set::new(|k: PieceKind| self.0 == 0 || has_bit(self.0, k.index()))
    }

    /// The bitmap from which the next piece is drawn: the stored one, or the
    /// full one after a refill.
    pub open spec fn refilled(self) -> u8 {
        if self.0 == 0 {
            ALL_KINDS
        } else {
            self.0
        }
    }

    /// The bag after `piece` has been drawn from it.
    pub open spec fn without(self, piece: PieceKind) -> SevenBag {
        SevenBag(self.refilled() & !(1u8 << (piece.index() as u8)))
    }

    /// The bag after `piece` has been put back.
    pub open spec fn with(self, piece: PieceKind) -> SevenBag {
        let m = self.0 | (1u8 << (piece.index() as u8));
        SevenBag(
            if m == ALL_KINDS {
                0u8
            } else {
                m
            },
        )
    }

    /// The bag that holds the kinds of a sequence; the full bag if it holds
    /// all seven.
    pub open spec fn holding(kinds: Seq<PieceKind>) -> SevenBag {
        SevenBag(
            if bitmap_of(kinds) == ALL_KINDS {
                0u8
            } else {
                bitmap_of(kinds)
            },
        )
    }

    /// The bag that holds the given kinds; the full bag if it holds all seven.
    #[verifier::rlimit(50)]
    pub fn from_kinds(kinds: &Vec<PieceKind>) -> (r: SevenBag)
        ensures
            r == Self::holding(kinds@),
            r.well_formed(),
            forall|k: PieceKind| #[trigger]
                r.stored().contains(k) <==> (kinds@.contains(k) && !holds_all(kinds@)),
    {
        let mut m: u8 = 0;
        let mut i: usize = 0;
        proof {
            assert forall|k: PieceKind| !has_bit(0u8, k.index()) by {
                lemma_bits_const(k.index());
            }
        }
        while i < kinds.len()
            invariant
                i <= kinds@.len(),
                m <= ALL_KINDS,
                m == bitmap_of(kinds@.take(i as int)),
                forall|k: PieceKind|
                    #[trigger] has_bit(m, k.index()) <==> kinds@.take(i as int).contains(k),
            decreases kinds@.len() - i,
        {
            let d = kinds[i].ordinal();
            let ghost before = m;
            m = m | (1u8 << d);
            proof {
                assert((before | (1u8 << d)) <= 0x7fu8) by (bit_vector)
                    requires
                        before <= 0x7fu8,
                        d < 7,
                ;
                let short = kinds@.take(i as int);
                let long = kinds@.take(i + 1);
                assert(long =~= short.push(kinds@[i as int]));
                assert(long.drop_last() =~= short);
                assert(m == bitmap_of(long));
                assert forall|k: PieceKind| #[trigger] has_bit(m, k.index()) <==> long.contains(k) by {
                    lemma_bit_set(before, d, k.index());
                    if short.contains(k) {
                        let j = choose|j: int| 0 <= j < short.len() && short[j] == k;
                        assert(long[j] == k);
                    }
                    if k.index() == d {
                        assert(long[i as int] == k);
                    }
                    if long.contains(k) {
                        let j = choose|j: int| 0 <= j < long.len() && long[j] == k;
                        if j < i {
                            assert(short[j] == k);
                        }
                    }
                }
            }
            i = i + 1;
        }
        proof {
            assert(kinds@.take(kinds@.len() as int) =~= kinds@);
            lemma_bit_probe(m, 7);
            assert(m & (1u8 << 7u8) == 0) by (bit_vector)
                requires
                    m <= 0x7fu8,
            ;
            assert(has_bit(m, PieceKind::S.index()) == kinds@.contains(PieceKind::S));
            assert(has_bit(m, PieceKind::Z.index()) == kinds@.contains(PieceKind::Z));
            assert(has_bit(m, PieceKind::J.index()) == kinds@.contains(PieceKind::J));
            assert(has_bit(m, PieceKind::L.index()) == kinds@.contains(PieceKind::L));
            assert(has_bit(m, PieceKind::T.index()) == kinds@.contains(PieceKind::T));
            assert(has_bit(m, PieceKind::O.index()) == kinds@.contains(PieceKind::O));
            assert(has_bit(m, PieceKind::I.index()) == kinds@.contains(PieceKind::I));
            if holds_all(kinds@) {
                assert forall|k: int| 0 <= k < 8 implies has_bit(m, k) == has_bit(0x7fu8, k) by {
                    lemma_bits_const(k);
                }
                lemma_bits_equal(m, 0x7fu8);
            }
            if m == ALL_KINDS {
                lemma_bits_const(0);
                lemma_bits_const(1);
                lemma_bits_const(2);
                lemma_bits_const(3);
                lemma_bits_const(4);
                lemma_bits_const(5);
                lemma_bits_const(6);
                assert(holds_all(kinds@));
            }
            assert forall|k: PieceKind| !has_bit(0u8, k.index()) by {
                lemma_bits_const(k.index());
            }
        }
        if m == ALL_KINDS {
            SevenBag(0)
        } else {
            SevenBag(m)
        }
    }

    /// True if `piece` can still be drawn.
    pub fn has(&self, piece: PieceKind) -> (r: bool)
        ensures
            r == self.available().contains(piece),
    {
        let d = piece.ordinal();
        proof {
            lemma_bit_probe(self.0, d);
        }
        self.0 == 0 || (self.0 & (1u8 << d)) != 0
    }

    /// True if the bitmap does not hold `piece`, so that it can be put back.
    pub fn lacks(&self, piece: PieceKind) -> (r: bool)
        ensures
            r == !self.stored().contains(piece),
    {
        let d = piece.ordinal();
        proof {
            lemma_bit_probe(self.0, d);
        }
        (self.0 & (1u8 << d)) == 0
    }

    /// Draws `piece` from the bag; an empty bitmap is refilled to all seven
    /// kinds first.
    pub fn take(&mut self, piece: PieceKind)
        requires
            old(self).available().contains(piece),
        ensures
            *final(self) == old(self).without(piece),
            final(self).stored() == (if old(self).0 == 0 {
                Set::<PieceKind>::full()
            } else {
                old(self).stored()
            }).remove(piece),
            old(self).well_formed() ==> final(self).well_formed(),
    {
        if self.0 == 0 {
            self.0 = ALL_KINDS;
        }
        let ghost filled = self.0;
        let d = piece.ordinal();
        self.0 = self.0 & !(1u8 << d);
        proof {
            assert forall|k: PieceKind| final(self).stored().contains(k) == (if old(self).0 == 0 {
                Set::<PieceKind>::full()
            } else {
                old(self).stored()
            }).remove(piece).contains(k) by {
                lemma_bit_clear(filled, d, k.index());
                lemma_bits_const(k.index());
            }
            assert(final(self).stored() =~= (if old(self).0 == 0 {
                Set::<PieceKind>::full()
            } else {
                old(self).stored()
            }).remove(piece));
            assert(filled & !(1u8 << d) <= filled) by (bit_vector);
            lemma_bit_clear(filled, d, d as int);
            lemma_bits_const(d as int);
            if filled == ALL_KINDS {
                assert(self.0 != ALL_KINDS);
            } else {
                lemma_bit_probe(filled, d);
                assert(self.0 != filled);
            }
        }
    }

    /// Puts `piece` back into the bag; a bag that is full again is written as
    /// the empty bitmap.
    pub fn put(&mut self, piece: PieceKind)
        requires
            !old(self).stored().contains(piece),
            old(self).well_formed(),
        ensures
            *final(self) == old(self).with(piece),
            final(self).well_formed(),
            final(self).available() == old(self).stored().insert(piece),
    {
        let d = piece.ordinal();
        let ghost before = self.0;
        self.0 = self.0 | (1u8 << d);
        let ghost joined = self.0;
        proof {
            assert((before | (1u8 << d)) <= 0x7fu8) by (bit_vector)
                requires
                    before < 0x7fu8,
                    d < 7,
            ;
        }
        if self.0 == ALL_KINDS {
            self.0 = 0;
        }
        proof {
            assert forall|k: PieceKind| final(self).available().contains(k) == old(self).stored().insert(piece).contains(k) by {
                lemma_bit_set(before, d, k.index());
                lemma_bits_const(k.index());
                lemma_bit_set(before, d, d as int);
                lemma_bits_const(d as int);
            }
            assert(final(self).available() =~= old(self).stored().insert(piece));
        }
    }

    /// The number of kinds that a bitmap holds.
    fn count(m: u8) -> (n: u8)
        ensures
            n as int == kinds_below(m, 8),
            n <= 8,
    {
        let mut n: u8 = 0;
        let mut k: u8 = 0;
        while k < 8
            invariant
                k <= 8,
                n <= k,
                n as int == kinds_below(m, k as int),
            decreases 8 - k,
        {
            proof {
                lemma_bit_probe(m, k);
            }
            if m & (1u8 << k) != 0 {
                n = n + 1;
            }
            k = k + 1;
        }
        n
    }

    /// The kind that stands at place `idx` among the kinds of a bitmap, in
    /// the order of their indices.
    pub fn nth_kind(m: u8, idx: u8) -> (r: PieceKind)
        requires
            m <= ALL_KINDS,
            idx < kinds_below(m, 8),
        ensures
            has_bit(m, r.index()),
            kinds_below(m, r.index()) == idx,
    {
        let mut seen: u8 = 0;
        let mut k: u8 = 0;
        proof {
            lemma_bit_probe(m, 7);
            assert(m & (1u8 << 7u8) == 0) by (bit_vector)
                requires
                    m <= 0x7fu8,
            ;
        }
        while k < 7
            invariant
                k <= 7,
                seen as int == kinds_below(m, k as int),
                seen <= idx,
                seen <= k,
                !has_bit(m, 7),
                idx < kinds_below(m, 8),
            decreases 7 - k,
        {
            proof {
                lemma_bit_probe(m, k);
            }
            if m & (1u8 << k) != 0 {
                if seen == idx {
                    return PieceKind::from_ordinal(k);
                }
                seen = seen + 1;
            }
            k = k + 1;
        }
        proof {
            assert(kinds_below(m, 8) == kinds_below(m, 7));
        }
        PieceKind::I
    }

    /// Draws a piece at random from the bag and returns it.
    pub fn take_rand(&mut self) -> (piece: PieceKind)
        requires
            old(self).well_formed(),
        ensures
            old(self).available().contains(piece),
            *final(self) == old(self).without(piece),
            final(self).well_formed(),
    {
        let m = if self.0 == 0 {
            ALL_KINDS
        } else {
            self.0
        };
        let n = Self::count(m);
        proof {
            if n == 0 {
                assert forall|k: int| 0 <= k < 8 implies has_bit(m, k) == has_bit(0u8, k) by {
                    lemma_count_zero(m, 8, k);
                    lemma_bits_const(k);
                }
                lemma_bits_equal(m, 0u8);
            }
        }
        let idx = random_below(n as usize) as u8;
        let piece = Self::nth_kind(m, idx);
        proof {
            lemma_bits_const(piece.index());
        }
        self.take(piece);
        piece
    }
}

/// A bitmap without kinds has no bit set.
proof fn lemma_count_zero(m: u8, n: int, k: int)
    requires
        0 <= k < n,
        kinds_below(m, n) == 0,
    ensures
        !has_bit(m, k),
    decreases n,
{
    lemma_count_nonneg(m, n - 1);
    if k < n - 1 {
        lemma_count_zero(m, n - 1, k);
    }
}

proof fn lemma_count_nonneg(m: u8, n: int)
    ensures
        kinds_below(m, n) >= 0,
    decreases n,
{
    if n > 0 {
        lemma_count_nonneg(m, n - 1);
    }
}

impl Default for SevenBag {
    /// The full bag.
    fn default() -> (r: SevenBag)
        ensures
            r == SevenBag(0),
            r.well_formed(),
    {
        SevenBag(0)
    }
}

} // verus!
