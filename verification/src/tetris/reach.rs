//! What follows for every complete search: that it finds a placement, and
//! that each position it reached lies within the limits of the search.
use super::board::{collides_at, lemma_free_is_near};
use super::movegen::{
    admitted, lemma_step_sound, move_cost, searched_kinds, step_target, MoveGenerator,
};
use super::piece::{Instruction, Move, PieceKind, PiecePosition, PieceState};
use super::state::{dropped, lemma_dropped_rests, spawn_of};
use vstd::prelude::*;

verus! {

/// Every complete search finds a placement: the fall of a spawn. Each
/// placement found is a free place of a piece of a kind searched, and stands
/// among the moves of the search.
pub proof fn lemma_a_placement_is_found(
    g: MoveGenerator,
    b: Set<(int, int)>,
    first: PieceKind,
    hold: Option<PieceKind>,
    use_hold: bool,
) -> (j: int)
    requires
        g.searches(b, first, hold, use_hold),
    ensures
        0 <= j < g.landings().len(),
        j < g.move_seq().len(),
        g.move_seq()[j] == Move::Place(g.landings()[j].0),
        !collides_at(b, g.landings()[j].0.pos),
        g.landings()[j].0.pos.representable(),
        g.landings()[j].0.pos.kind == first || (use_hold && hold == Some(g.landings()[j].0.pos.kind)),
{
    assert(searched_kinds(b, first, hold, use_hold).contains(first));
    let spawn = super::state::spawn_of(b, first)->0.pos;
    assert(g.reaches(spawn));
    let j = g.lemma_fall_found(spawn);
    g.lemma_landing_reached(j);
    let above = g.landings()[j].1;
    g.lemma_reached_sound(above);
    let piece = g.step_at(above).piece;
    lemma_free_is_near(b, piece.pos);
    lemma_dropped_rests(b, piece);
    lemma_free_is_near(b, dropped(b, piece).pos);
    assert(dropped(b, piece).pos.kind == piece.pos.kind);
    assert(searched_kinds(b, first, hold, use_hold).contains(piece.pos.kind));
    j
}

/// Where a sequence of inputs takes a piece, and what the inputs cost in
/// all, if every input leads somewhere and is followed at its depth and
/// cumulative cost; nothing if one of them is not.
pub open spec fn walk(b: Set<(int, int)>, start: PieceState, inputs: Seq<Instruction>) -> Option<
    (PieceState, int),
>
    decreases inputs.len(),
{
    if inputs.len() == 0 {
        Some((start, 0int))
    } else {
        match walk(b, start, inputs.drop_last()) {
            None => None,
            Some(before) => {
                let prev = if inputs.len() >= 2 {
                    Some(inputs[inputs.len() - 2])
                } else {
                    None
                };
                match step_target(b, before.0, inputs.last()) {
                    None => None,
                    Some(to) => {
                        let cost = before.1 + move_cost(prev, inputs.last(), before.0, to);
                        if admitted(to.pos.kind, cost, inputs.len() as int) {
                            Some((to, cost))
                        } else {
                            None
                        }
                    },
                }
            },
        }
    }
}

/// Every position that a complete search reached lies within the limits of
/// the search: there are inputs that lead to it from the spawn of its kind,
/// as many as its depth, each followed at its depth and cumulative cost, and
/// they cost what the search recorded.
pub proof fn lemma_reached_within_limits(g: MoveGenerator, q: PiecePosition) -> (inputs: Seq<
    Instruction,
>)
    requires
        g.complete(),
        g.reaches(q),
    ensures
        spawn_of(g.board(), q.kind) is Some,
        inputs.len() == g.step_at(q).depth,
        walk(g.board(), spawn_of(g.board(), q.kind)->0, inputs) == Some(
            (g.step_at(q).piece, g.step_at(q).cost as int),
        ),
        g.step_at(q).instruction == (if inputs.len() == 0 {
            None
        } else {
            Some(inputs.last())
        }),
        inputs.len() > 0 ==> admitted(q.kind, g.step_at(q).cost as int, inputs.len() as int),
    decreases g.step_at(q).depth,
{
    let b = g.board();
    let s = g.step_at(q);
    g.lemma_reached_sound(q);
    let k = super::movegen::key_of(q) as u32;
    assert(g.reached().contains_key(k));
    assert(g.entry_sound(k) && g.entry_linked(k));
    reveal(MoveGenerator::entry_linked);
    match s.parent {
        None => Seq::empty(),
        Some(from) => {
            let shorter = lemma_reached_within_limits(g, from);
            let ins = s.instruction->0;
            g.lemma_reached_sound(from);
            lemma_step_sound(b, g.step_at(from).piece, ins);
            assert(q.kind == from.kind);
            let inputs = shorter.push(ins);
            assert(inputs.drop_last() =~= shorter);
            assert(inputs.last() == ins);
            if inputs.len() >= 2 {
                assert(inputs[inputs.len() - 2] == shorter.last());
            }
            inputs
        },
    }
}

/// Every placement that a complete search found is the fall of a position
/// within the limits of the search, with the cost of the inputs that lead to
/// that position.
pub proof fn lemma_placement_within_limits(g: MoveGenerator, j: int) -> (inputs: Seq<Instruction>)
    requires
        g.complete(),
        0 <= j < g.landings().len(),
    ensures
        spawn_of(g.board(), g.landings()[j].0.pos.kind) is Some,
        walk(g.board(), spawn_of(g.board(), g.landings()[j].0.pos.kind)->0, inputs) matches Some(
            end,
        ) && g.landings()[j].0 == dropped(g.board(), end.0) && g.landings()[j].2 == end.1,
{
    g.lemma_landing_reached(j);
    let above = g.landings()[j].1;
    g.lemma_reached_sound(above);
    let inputs = lemma_reached_within_limits(g, above);
    assert(dropped(g.board(), g.step_at(above).piece).pos.kind == above.kind);
    inputs
}

} // verus!
