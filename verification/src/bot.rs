//! The session controller: the search graph of the game in progress and
//! what the host asks of it.

use crate::eval::{situation_of, Evaluator, Situation, StandardEvaluator};
use crate::search::generation::index_of;
use crate::search::graph::{Graph, GraphView};
use crate::search::state::{can_rewind, rewound, State};
use crate::search::storage::items_total;
use crate::search::tree::{greedy, nodes_total};
use crate::tetris::bit_board::BitBoard;
use crate::tetris::piece::{Move, PieceKind};
use crate::tetris::state::GameState;
use vstd::prelude::*;

verus! {

/// How the bot is set up.
#[derive(Debug, Clone, Copy, PartialEq, Eq, Structural)]
pub struct BotConfig {
    /// The number of workers that search at a time.
    pub num_workers: usize,
}

/// The number of nodes of each generation, the head first.
#[derive(Debug, Clone)]
pub struct Stats {
    pub nodes: Vec<usize>,
}

/// What a worker does next.
#[derive(Debug, Clone, Copy, PartialEq, Eq, Structural)]
pub enum WorkerStep {
    /// The search was stopped: the worker ends.
    Exit,
    /// There is no graph to search: the worker waits a little.
    Idle,
    /// The worker made one iteration of the search.
    Worked,
}

/// True if the graph is that of a game that has just begun in the situation
/// `first`: its queue is that of the game, its evaluator has the tuned
/// weights, and its one node is the root, which stands for the state of the
/// game with the queue put back into the bag, holds the score that the
/// evaluator gives the game, and has no parents stored.
pub open spec fn begun(g: Graph<StandardEvaluator>, first: Situation) -> bool {
    let root = g.views()[0].node(index_of(g.views()[0].keys[g.root().key_seq()]));
    &&& g.root() == (State {
        board: first.board,
        bag: rewound(first.bag, first.queue),
        hold: first.hold,
        ren: first.ren,
        b2b: first.b2b,
    })
    &&& g.pieces() == first.queue
    &&& g.judge().weights.tuned()
    &&& g.views().len() == 1
    &&& nodes_total(g.views()) == 1
    &&& g.views()[0].keys.contains_key(g.root().key_seq())
    &&& root.children is None
    &&& root.value == g.judge().state_value(first)
    &&& !root.dead
    &&& g.views()[0].parents.contains_key(g.views()[0].keys[g.root().key_seq()])
    &&& g.views()[0].parents[g.views()[0].keys[g.root().key_seq()]].len() == 0
}

/// The bot: the graph of the game in progress, if any, and whether the
/// search is stopped.
pub struct HikariFireflyBot {
    graph: Option<Graph<StandardEvaluator>>,
    abort: bool,
    config: BotConfig,
}

impl HikariFireflyBot {
    /// True if the graph of the game in progress, if any, is sound.
    pub open spec fn well_formed(self) -> bool {
        self.graph() matches Some(g) ==> g.well_formed()
    }

    /// The graph of the game in progress.
    pub closed spec fn graph(self) -> Option<Graph<StandardEvaluator>> {
        self.graph
    }

    /// True if the search is stopped.
    pub closed spec fn stopped(self) -> bool {
        self.abort
    }

    /// The setup.
    pub closed spec fn setup(self) -> BotConfig {
        self.config
    }

    /// What the graph of the game in progress holds.
    pub open spec fn game(self) -> Option<GraphView<StandardEvaluator>> {
        match self.graph() {
            Some(g) => Some(g.model()),
            None => None,
        }
    }

    /// A bot without a game, with the search stopped.
    pub fn new(config: BotConfig) -> (r: Self)
        ensures
            r.well_formed(),
            r.graph() is None,
            r.stopped(),
            r.setup() == config,
    {
        HikariFireflyBot { graph: None, abort: true, config }
    }

    /// Starts a new game from a state, or ends the game if there is none.
    ///
    /// The new graph has the state as its root and the standard evaluator
    /// with its tuned weights. A state whose queue cannot be put back into
    /// its bag leaves the bot without a game.
    pub fn reset(&mut self, state: Option<GameState<BitBoard>>)
        requires
            old(self).well_formed(),
        ensures
            final(self).well_formed(),
            final(self).stopped() == old(self).stopped(),
            final(self).setup() == old(self).setup(),
            final(self).graph() is Some <==> (state matches Some(s) && can_rewind(s.bag, s.queue@)),
            final(self).graph() matches Some(g) ==> begun(g, situation_of(&state->0)),
    {
        let graph = match state {
            Some(s) => match State::try_new(&s) {
                Some(_) => Some(Graph::new(&s, Box::new(StandardEvaluator::default()))),
                None => None,
            },
            None => None,
        };
        self.graph = graph;
    }

    /// Lets the search run and returns the number of workers to start.
    pub fn start(&mut self) -> (workers: usize)
        requires
            old(self).well_formed(),
        ensures
            final(self).well_formed(),
            !final(self).stopped(),
            workers == old(self).setup().num_workers,
            final(self).setup() == old(self).setup(),
            final(self).graph() == old(self).graph(),
    {
        self.abort = false;
        self.config.num_workers
    }

    /// Stops the search: each worker ends after the iteration it is in.
    pub fn stop(&mut self)
        requires
            old(self).well_formed(),
        ensures
            final(self).well_formed(),
            final(self).stopped(),
            final(self).setup() == old(self).setup(),
            final(self).graph() == old(self).graph(),
    {
        self.abort = true;
    }

    /// One turn of a worker's loop: ends the worker if the search is stopped,
    /// lets it wait if there is no game, and else makes one iteration of the
    /// search.
    pub fn work_once(&mut self) -> (r: WorkerStep)
        requires
            old(self).well_formed(),
        ensures
            final(self).well_formed(),
            final(self).stopped() == old(self).stopped(),
            final(self).setup() == old(self).setup(),
            r == (if old(self).stopped() {
                WorkerStep::Exit
            } else if old(self).graph() is None {
                WorkerStep::Idle
            } else {
                WorkerStep::Worked
            }),
            r != WorkerStep::Worked ==> final(self).graph() == old(self).graph(),
            r == WorkerStep::Worked ==> {
                &&& final(self).graph() is Some
                &&& final(self).graph()->0.well_formed()
                &&& final(self).graph()->0.worked_from(&old(self).graph()->0)
            },
    {
        if self.abort {
            return WorkerStep::Exit;
        }
        match self.graph.take() {
            Some(mut graph) => {
                graph.work();
                self.graph = Some(graph);
                WorkerStep::Worked
            },
            None => WorkerStep::Idle,
        }
    }

    /// The moves of the best line of play found so far, if there is a game.
    /// The first of them is a move that the root offers and that can be
    /// played in its state with the piece at the head of the queue.
    pub fn suggest(&self) -> (r: Option<Vec<Move>>)
        requires
            self.well_formed(),
        ensures
            r is Some <==> self.game() is Some,
            r matches Some(moves) ==> moves@ == self.game()->0.plan(),
            r matches Some(moves) ==> moves@.len() > 0 ==> self.game()->0.offers(moves@[0])
                && self.game()->0.root.applies(moves@[0], self.game()->0.pieces[0]),
            r matches Some(moves) ==> self.graph()->0.can_plan() ==> moves@.len() > 0,
    {
        match &self.graph {
            Some(graph) => {
                proof {
                    if greedy(graph.views(), graph.pieces(), 0, graph.root()).len() > 0 {
                        graph.lemma_plan_head_offered();
                    }
                }
                Some(graph.best_plan().moves)
            },
            None => None,
        }
    }

    /// Commits a move that the host has played. A move that the root does not
    /// offer, or a move without a game, changes nothing.
    pub fn pick_move(&mut self, mv: Move)
        requires
            old(self).well_formed(),
        ensures
            final(self).well_formed(),
            final(self).stopped() == old(self).stopped(),
            final(self).setup() == old(self).setup(),
            final(self).game() == (match old(self).game() {
                Some(g) => Some(g.committed(mv)),
                None => None,
            }),
    {
        match self.graph.take() {
            Some(mut graph) => {
                match graph.advance(mv) {
                    Ok(_) => {},
                    Err(_) => {},
                }
                self.graph = Some(graph);
            },
            None => {},
        }
    }

    /// Appends a revealed piece to the queue of the game, if there is one.
    pub fn add_piece(&mut self, piece: PieceKind)
        requires
            old(self).well_formed(),
        ensures
            final(self).well_formed(),
            final(self).stopped() == old(self).stopped(),
            final(self).setup() == old(self).setup(),
            final(self).game() == (match old(self).game() {
                Some(g) => Some(GraphView { pieces: g.pieces.push(piece), ..g }),
                None => None,
            }),
    {
        match self.graph.take() {
            Some(mut graph) => {
                graph.add_piece(piece);
                self.graph = Some(graph);
            },
            None => {},
        }
    }

    /// The number of nodes of each generation of the graph, the head first;
    /// none without a game.
    pub fn census(&self) -> (r: Stats)
        requires
            self.well_formed(),
        ensures
            match self.game() {
                Some(g) => r.nodes@.len() == g.views.len() && forall|d: int|
                    0 <= d < r.nodes@.len() ==> (#[trigger] r.nodes@[d]) as int == items_total(
                        g.views[d].nodes,
                    ),
                None => r.nodes@.len() == 0,
            },
    {
        match &self.graph {
            Some(graph) => Stats { nodes: graph.generation_sizes() },
            None => Stats { nodes: Vec::new() },
        }
    }

    /// The number of nodes of the graph, or 0 without a game.
    pub fn stats(&self) -> (n: usize)
        requires
            self.well_formed(),
        ensures
            n as int == (match self.graph() {
                Some(g) => nodes_total(g.views()),
                None => 0,
            }),
    {
        match &self.graph {
            Some(graph) => graph.count_nodes(),
            None => 0,
        }
    }
}

} // verus!
