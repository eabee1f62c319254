//! The host protocol: what the bot does with each message of the host and
//! what it replies.

use crate::bot::{begun, BotConfig, HikariFireflyBot};
use crate::eval::{Situation, StandardEvaluator};
use crate::search::graph::GraphView;
use crate::search::state::can_rewind;
use crate::tetris::bag::SevenBag;
use crate::tetris::bit_board::BitBoard;
use crate::tetris::piece::{Move, PieceKind, PieceState};
use crate::tetris::state::GameState;
use std::collections::VecDeque;
use vstd::prelude::*;

verus! {

/// How the host draws its pieces.
#[derive(Debug, Clone)]
pub enum Randomizer {
    /// A 7-bag, with the kinds that remain in the bag.
    SevenBag { bag_state: Vec<PieceKind> },
    /// Another way that the bot does not know.
    Unknown,
}

/// The state of the game that the host starts from.
#[derive(Debug, Clone)]
pub struct Start {
    pub board: BitBoard,
    pub queue: Vec<PieceKind>,
    pub hold: Option<PieceKind>,
    /// The combo counter plus one.
    pub combo: u32,
    pub back_to_back: bool,
    pub randomizer: Randomizer,
}

/// A message of the host.
#[derive(Debug, Clone)]
pub enum FrontendMessage {
    /// Opens the negotiation.
    Rules,
    /// Starts a game.
    Start(Start),
    /// The host has committed a move.
    Play { mv: PieceState },
    /// A piece was revealed at the end of the queue.
    NewPiece { piece: PieceKind },
    /// Asks for a plan.
    Suggest,
    /// Pauses the search.
    Stop,
    /// Ends the process.
    Quit,
    /// Any other message.
    Unknown,
}

/// A reply of the bot.
#[derive(Debug, Clone)]
pub enum BotMessage {
    /// Who the bot is; sent unasked when the process starts.
    Info { name: String, version: String, author: String, features: Vec<String> },
    /// The bot can accept a start.
    Ready,
    /// The piece to play next, and the number of nodes reported with it.
    Suggestion { moves: Vec<PieceState>, nodes: u64 },
}

/// What the adapter does after a message.
#[derive(Debug, Clone)]
pub struct Outcome {
    /// The reply to send, if any.
    pub reply: Option<BotMessage>,
    /// The number of workers to start.
    pub workers: usize,
    /// True if the process is to end.
    pub quit: bool,
}

/// The session with a host: the bot, once the host has opened the
/// negotiation, and the moves of the last suggestion.
pub struct Session {
    bot: Option<HikariFireflyBot>,
    last_reply_moves: Vec<Move>,
    config: BotConfig,
}

/// The moves that a suggestion commits to, for a plan: the first move, and
/// with a hold the placement that follows it. None if the plan is empty or
/// a hold is not followed by a placement.
pub open spec fn leading_moves(plan: Seq<Move>) -> Option<Seq<Move>> {
    if plan.len() == 0 {
        None
    } else {
        match plan[0] {
            Move::Place(_) => Some(seq![plan[0]]),
            Move::Hold => if plan.len() >= 2 && plan[1] is Place {
                Some(seq![plan[0], plan[1]])
            } else {
                None
            },
        }
    }
}

/// The piece that a suggestion names: the placement among its leading moves.
pub open spec fn suggested_piece(leading: Seq<Move>) -> PieceState {
    match leading.last() {
        Move::Place(piece) => piece,
        Move::Hold => arbitrary(),
    }
}

/// What an evaluator sees of the game that a start message describes.
pub open spec fn opening(start: Start) -> Situation {
    Situation {
        board: start.board,
        hold: start.hold,
        queue: start.queue@,
        bag: SevenBag::holding(start.randomizer->bag_state@),
        b2b: start.back_to_back,
        ren: (start.combo - 1) as i32,
    }
}

/// True if the bot `after` is what the bot `before` becomes with a start
/// message, and `workers` is the number of workers to start then.
///
/// A start with a 7-bag and a combo that fits the machine's numbers lets the
/// search run. It begins a game if the queue can be put back into the bag,
/// and else leaves the bot without a game. Any other start changes nothing.
pub open spec fn started(
    after: HikariFireflyBot,
    before: HikariFireflyBot,
    start: Start,
    workers: usize,
) -> bool {
    if start.randomizer is SevenBag && start.combo <= 0x7fff_ffff {
        let first = opening(start);
        &&& after.setup() == before.setup()
        &&& !after.stopped()
        &&& workers == before.setup().num_workers
        &&& after.graph() is Some <==> can_rewind(first.bag, first.queue)
        &&& after.graph() matches Some(g) ==> begun(g, first)
    } else {
        after == before && workers == 0
    }
}

/// The game state that a start message describes, if its combo fits the
/// machine's numbers and its randomizer is a 7-bag.
pub fn game_of(start: &Start) -> (r: Option<GameState<BitBoard>>)
    ensures
        r is Some <==> (start.randomizer is SevenBag && start.combo <= 0x7fff_ffff),
        r matches Some(g) ==> {
            &&& g.board == start.board
            &&& g.queue@ == start.queue@
            &&& g.hold == start.hold
            &&& g.ren == start.combo - 1
            &&& g.b2b == start.back_to_back
            &&& g.bag == SevenBag::holding(start.randomizer->bag_state@)
            &&& g.bag.well_formed()
        },
{
    if start.combo > 0x7fff_ffff {
        return None;
    }
    let bag = match &start.randomizer {
        Randomizer::SevenBag { bag_state } => SevenBag::from_kinds(bag_state),
        Randomizer::Unknown => {
            return None;
        },
    };
    let mut queue: VecDeque<PieceKind> = VecDeque::new();
    let mut i: usize = 0;
    while i < start.queue.len()
        invariant
            i <= start.queue@.len(),
            queue@ == start.queue@.take(i as int),
        decreases start.queue@.len() - i,
    {
        queue.push_back(start.queue[i]);
        proof {
            assert(start.queue@.take(i + 1) =~= start.queue@.take(i as int).push(
                start.queue@[i as int],
            ));
        }
        i = i + 1;
    }
    proof {
        assert(start.queue@.take(start.queue@.len() as int) =~= start.queue@);
    }
    Some(
        GameState {
            board: start.board,
            queue,
            hold: start.hold,
            ren: start.combo as i32 - 1,
            b2b: start.back_to_back,
            bag,
        },
    )
}

impl Session {
    /// The bot, once the host has opened the negotiation.
    pub closed spec fn bot(self) -> Option<HikariFireflyBot> {
        self.bot
    }

    /// The moves that the last suggestion committed to.
    pub closed spec fn pending(self) -> Seq<Move> {
        self.last_reply_moves@
    }

    /// The setup that each bot of the session is made with.
    pub closed spec fn setup(self) -> BotConfig {
        self.config
    }

    /// True if the bot, if any, is sound.
    pub open spec fn well_formed(self) -> bool {
        self.bot() matches Some(b) ==> b.well_formed()
    }

    /// A session before the first message: without a bot, with no moves
    /// remembered, and with the setup for the bots to come.
    pub fn new(config: BotConfig) -> (r: Session)
        ensures
            r.well_formed(),
            r.bot() is None,
            r.pending().len() == 0,
            r.setup() == config,
    {
        Session { bot: None, last_reply_moves: Vec::new(), config }
    }

    /// What the graph of the game in progress holds, if there is a bot with
    /// a game.
    pub open spec fn game(self) -> Option<GraphView<StandardEvaluator>> {
        match self.bot() {
            Some(b) => b.game(),
            None => None,
        }
    }

    /// Takes a message of the host.
    ///
    /// `rules` makes a new bot and is answered with `ready`. Every other
    /// message but `quit` is passed over until then. `start` starts a game
    /// from the state given and lets the search run; `stop` stops the
    /// search; `new_piece` appends a piece to the queue; `suggest` is answered
    /// with the piece to play next, and remembers the moves that lead to it;
    /// `play` commits the moves remembered; `quit` ends the process. A start
    /// that cannot be read and a suggestion without a plan are passed over
    /// in silence.
    #[verifier::rlimit(50)]
    pub fn handle(&mut self, message: FrontendMessage) -> (r: Outcome)
        requires
            old(self).well_formed(),
        ensures
            final(self).well_formed(),
            final(self).setup() == old(self).setup(),
            r.quit == (message is Quit),
            !(message is Rules) ==> (final(self).bot() is Some <==> old(self).bot() is Some),
            !(message is Rules || message is Suggest) ==> r.reply is None,
            !(message is Suggest) ==> final(self).pending() == old(self).pending(),
            !(message is Start) ==> r.workers == 0,
            (message is Quit || message is Unknown || (old(self).bot() is None && !(message
                is Rules))) ==> final(self).bot() == old(self).bot() && final(self).pending()
                == old(self).pending(),
            match message {
                FrontendMessage::Rules => {
                    &&& r.reply matches Some(BotMessage::Ready)
                    &&& final(self).bot() matches Some(b)
                    &&& b.graph() is None
                    &&& b.stopped()
                    &&& b.setup() == old(self).setup()
                },
                FrontendMessage::Start(start) => old(self).bot() matches Some(b) ==> started(
                    final(self).bot()->0,
                    b,
                    start,
                    r.workers,
                ),
                FrontendMessage::Stop => old(self).bot() matches Some(b) ==> final(self).bot()->0.stopped() && final(self).bot()->0.graph() == b.graph(),
                FrontendMessage::NewPiece { piece } => old(self).bot() is Some ==> final(self).game() == (match old(self).game() {
                    Some(g) => Some(GraphView { pieces: g.pieces.push(piece), ..g }),
                    None => None,
                }),
                FrontendMessage::Play { mv } => old(self).bot() is Some ==> final(self).game() == (
                match old(self).game() {
                    Some(g) => Some(g.committed_all(old(self).pending())),
                    None => None,
                }),
                FrontendMessage::Suggest => old(self).bot() is Some ==> {
                    &&& final(self).game() == old(self).game()
                    &&& match old(self).game() {
                        Some(g) => match leading_moves(g.plan()) {
                            Some(leading) => {
                                &&& final(self).pending() == leading
                                &&& r.reply matches Some(BotMessage::Suggestion { moves, nodes })
                                &&& moves@ == seq![suggested_piece(leading)]
                                &&& nodes == 0
                                &&& g.offers(leading[0])
                                &&& g.root.applies(leading[0], g.pieces[0])
                            },
                            None => r.reply is None && final(self).pending() == old(self).pending(),
                        },
                        None => r.reply is None && final(self).pending() == old(self).pending(),
                    }
                },
                _ => true,
            },
    {
        let mut out = Outcome { reply: None, workers: 0, quit: false };
        match message {
            FrontendMessage::Rules => {
                self.bot = Some(HikariFireflyBot::new(self.config));
                out.reply = Some(BotMessage::Ready);
            },
            FrontendMessage::Quit => {
                out.quit = true;
            },
            FrontendMessage::Unknown => {},
            other => {
                match self.bot.take() {
                    Some(mut bot) => {
                        match other {
                            FrontendMessage::Start(start) => {
                                out.workers = Self::on_start(&mut bot, &start);
                            },
                            FrontendMessage::Stop => {
                                bot.stop();
                            },
                            FrontendMessage::NewPiece { piece } => {
                                bot.add_piece(piece);
                            },
                            FrontendMessage::Play { mv } => {
                                Self::on_play(&mut bot, &self.last_reply_moves);
                            },
                            FrontendMessage::Suggest => {
                                match Self::on_suggest(&bot) {
                                    Some((leading, reply)) => {
                                        self.last_reply_moves = leading;
                                        out.reply = Some(reply);
                                    },
                                    None => {},
                                }
                            },
                            _ => {},
                        }
                        self.bot = Some(bot);
                    },
                    None => {},
                }
            },
        }
        out
    }

    /// Starts a game from the state that a start message describes, and lets
    /// the search run; returns the number of workers to start. A start that
    /// cannot be read changes nothing.
    pub fn on_start(bot: &mut HikariFireflyBot, start: &Start) -> (workers: usize)
        requires
            old(bot).well_formed(),
        ensures
            final(bot).well_formed(),
            final(bot).setup() == old(bot).setup(),
            started(*final(bot), *old(bot), *start, workers),
    {
        match game_of(start) {
            Some(game) => {
                bot.reset(Some(game));
                bot.start()
            },
            None => 0,
        }
    }

    /// Commits the moves of the last suggestion, one after another.
    pub fn on_play(bot: &mut HikariFireflyBot, moves: &Vec<Move>)
        requires
            old(bot).well_formed(),
        ensures
            final(bot).well_formed(),
            final(bot).stopped() == old(bot).stopped(),
            final(bot).setup() == old(bot).setup(),
            final(bot).game() == (match old(bot).game() {
                Some(g) => Some(g.committed_all(moves@)),
                None => None,
            }),
    {
        let mut i: usize = 0;
        while i < moves.len()
            invariant
                i <= moves@.len(),
                bot.well_formed(),
                bot.stopped() == old(bot).stopped(),
                bot.setup() == old(bot).setup(),
                bot.game() == (match old(bot).game() {
                    Some(g) => Some(g.committed_all(moves@.take(i as int))),
                    None => None,
                }),
            decreases moves@.len() - i,
        {
            proof {
                let next = moves@.take(i + 1);
                assert(next.drop_last() =~= moves@.take(i as int));
                assert(next.last() == moves@[i as int]);
            }
            bot.pick_move(moves[i]);
            i = i + 1;
        }
        proof {
            assert(moves@.take(moves@.len() as int) =~= moves@);
        }
    }

    /// The moves to remember and the reply to send for a request of a plan:
    /// nothing without a game or without a plan to lead with.
    pub fn on_suggest(bot: &HikariFireflyBot) -> (r: Option<(Vec<Move>, BotMessage)>)
        requires
            bot.well_formed(),
        ensures
            match bot.game() {
                Some(g) => match leading_moves(g.plan()) {
                    Some(leading) => {
                        &&& r matches Some((remembered, BotMessage::Suggestion { moves, nodes }))
                        &&& remembered@ == leading
                        &&& moves@ == seq![suggested_piece(leading)]
                        &&& nodes == 0
                        &&& g.offers(leading[0])
                        &&& g.root.applies(leading[0], g.pieces[0])
                    },
                    None => r is None,
                },
                None => r is None,
            },
    {
        let plan = match bot.suggest() {
            Some(plan) => plan,
            None => {
                return None;
            },
        };
        let leading = match Self::commit(&plan) {
            Some(leading) => leading,
            None => {
                return None;
            },
        };
        let piece = match leading[leading.len() - 1] {
            Move::Place(piece) => piece,
            Move::Hold => {
                return None;
            },
        };
        let mut moves: Vec<PieceState> = Vec::new();
        moves.push(piece);
        proof {
            assert(moves@ =~= seq![suggested_piece(leading@)]);
        }
        Some((leading, BotMessage::Suggestion { moves, nodes: 0 }))
    }

    /// The message that the bot sends unasked when the process starts.
    pub fn greeting() -> (r: BotMessage)
        ensures
            r matches BotMessage::Info { name, version, author, features } && name@ == "Hikari"@
                && version@ == "0.1.0"@ && author@ == "SoRA-X7"@ && features@.len() == 1
                && features@[0]@ == "randomizer"@,
    {
        let mut features: Vec<String> = Vec::new();
        features.push("randomizer".to_string());
        BotMessage::Info {
            name: "Hikari".to_string(),
            version: "0.1.0".to_string(),
            author: "SoRA-X7".to_string(),
            features,
        }
    }

    /// One turn of a worker's loop; see `HikariFireflyBot::work_once`. Before
    /// the host has opened the negotiation the worker waits.
    pub fn work_once(&mut self) -> (r: crate::bot::WorkerStep)
        requires
            old(self).well_formed(),
        ensures
            final(self).well_formed(),
            final(self).setup() == old(self).setup(),
            final(self).pending() == old(self).pending(),
            final(self).bot() is Some <==> old(self).bot() is Some,
            r == (match old(self).bot() {
                None => crate::bot::WorkerStep::Idle,
                Some(b) => if b.stopped() {
                    crate::bot::WorkerStep::Exit
                } else if b.graph() is None {
                    crate::bot::WorkerStep::Idle
                } else {
                    crate::bot::WorkerStep::Worked
                },
            }),
            old(self).bot() matches Some(before) ==> {
                let after = final(self).bot()->0;
                &&& after.stopped() == before.stopped()
                &&& after.setup() == before.setup()
                &&& r != crate::bot::WorkerStep::Worked ==> after.graph() == before.graph()
                &&& r == crate::bot::WorkerStep::Worked ==> after.graph() is Some
                    && after.graph()->0.well_formed() && after.graph()->0.worked_from(
                    &before.graph()->0,
                )
            },
    {
        match self.bot.take() {
            Some(mut bot) => {
                let step = bot.work_once();
                self.bot = Some(bot);
                step
            },
            None => crate::bot::WorkerStep::Idle,
        }
    }

    /// The moves that a suggestion commits to, for a plan.
    pub fn commit(plan: &Vec<Move>) -> (r: Option<Vec<Move>>)
        ensures
            match r {
                Some(leading) => leading_moves(plan@) == Some(leading@) && leading@.len() > 0
                    && leading@.last() is Place,
                None => leading_moves(plan@) is None,
            },
    {
        if plan.len() == 0 {
            return None;
        }
        let mut leading: Vec<Move> = Vec::new();
        match plan[0] {
            Move::Place(_) => {
                leading.push(plan[0]);
                assert(leading@ =~= seq![plan@[0]]);
                Some(leading)
            },
            Move::Hold => {
                if plan.len() < 2 {
                    return None;
                }
                match plan[1] {
                    Move::Place(_) => {
                        leading.push(plan[0]);
                        leading.push(plan[1]);
                        assert(leading@ =~= seq![plan@[0], plan@[1]]);
                        Some(leading)
                    },
                    Move::Hold => None,
                }
            },
        }
    }
}

} // verus!
