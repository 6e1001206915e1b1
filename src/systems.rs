use vstd::prelude::*;
use queues::IsQueue;
use crate::board::Board;
use crate::model::BoardModel;
use crate::mat::Matches;
use crate::position::Position;

verus! {

#[verifier::external_type_specification]
#[verifier::external_body]
#[verifier::reject_recursive_types(T)]
pub struct ExQueue<T: Clone>(queues::Queue<T>);

/// What a command queue holds, oldest first.
pub uninterp spec fn command_queue_items(q: queues::Queue<BoardCommand>) -> Seq<BoardCommand>;

/// What an event queue holds, oldest first.
pub uninterp spec fn event_queue_items(q: queues::Queue<BoardEvent>) -> Seq<BoardEvent>;

/// Relies on `queues::Queue::new`: a new queue is empty.
#[verifier::external_body]
fn new_command_queue() -> (r: queues::Queue<BoardCommand>)
    ensures
        command_queue_items(r) == Seq::<BoardCommand>::empty(),
{
    queues::Queue::new()
}

/// Relies on `queues::Queue::add`: the item goes to the back; an unbounded
/// queue always takes it.
#[verifier::external_body]
fn add_command(q: &mut queues::Queue<BoardCommand>, c: BoardCommand)
    ensures
        command_queue_items(*final(q)) == command_queue_items(*old(q)).push(c),
{
    let _ = q.add(c);
}

/// Relies on `queues::Queue::remove`: the oldest item, taken off the queue, or
/// nothing when the queue is empty.
#[verifier::external_body]
fn remove_command(q: &mut queues::Queue<BoardCommand>) -> (r: Option<BoardCommand>)
    ensures
        command_queue_items(*old(q)).len() == 0 ==> r is None && command_queue_items(*final(q)) == command_queue_items(*old(q)),
        command_queue_items(*old(q)).len() > 0 ==> r == Some(command_queue_items(*old(q))[0])
            && command_queue_items(*final(q)) == command_queue_items(*old(q)).drop_first(),
{
    q.remove().ok()
}

/// Relies on `queues::Queue::new`: a new queue is empty.
#[verifier::external_body]
fn new_event_queue() -> (r: queues::Queue<BoardEvent>)
    ensures
        event_queue_items(r) == Seq::<BoardEvent>::empty(),
{
    queues::Queue::new()
}

/// Relies on `queues::Queue::add`: the item goes to the back; an unbounded
/// queue always takes it.
#[verifier::external_body]
fn add_event(q: &mut queues::Queue<BoardEvent>, e: BoardEvent)
    ensures
        event_queue_items(*final(q)) == event_queue_items(*old(q)).push(e),
{
    let _ = q.add(e);
}

/// Relies on `queues::Queue::remove`: the oldest item, taken off the queue, or
/// nothing when the queue is empty.
#[verifier::external_body]
fn remove_event(q: &mut queues::Queue<BoardEvent>) -> (r: Option<BoardEvent>)
    ensures
        event_queue_items(*old(q)).len() == 0 ==> r is None && event_queue_items(*final(q)) == event_queue_items(*old(q)),
        event_queue_items(*old(q)).len() > 0 ==> r == Some(event_queue_items(*old(q))[0])
            && event_queue_items(*final(q)) == event_queue_items(*old(q)).drop_first(),
{
    q.remove().ok()
}

/// A queue refused an item (a bounded queue that is full).
#[derive(Clone, Copy, Debug, PartialEq, Eq, Structural)]
pub enum QueueError {
    Full,
}

/// A queue had nothing to hand out.
#[derive(Clone, Copy, Debug, PartialEq, Eq, Structural)]
pub struct QueueEmpty;

/// The commands that can be issued to the board.
#[derive(Clone, Debug)]
pub enum BoardCommand {
    /// Swap two gems; succeeds only if the swap makes a match.
    Swap(Position, Position),
    /// Pop the gems at the given positions, then let gems fall and refill once;
    /// matches left on the refilled board are reported, not cleared.
    Pop(Vec<Position>),
    /// Move the gems of the board to random places.
    Shuffle,
}

/// A gem falling from a higher to a lower cell of its column.
#[derive(Clone, Copy, Debug, PartialEq, Eq, Structural)]
pub struct Drop {
    /// The cell the gem left.
    pub from: Position,
    /// The cell the gem fell to.
    pub to: Position,
}

/// What happened on the board.
#[derive(Clone, Debug)]
pub enum BoardEvent {
    /// Two gems were swapped.
    Swapped(Position, Position),
    /// A swap was refused; the board did not change.
    FailedSwap(Position, Position),
    /// Gems fell. In each column the gem that started lowest comes first, so
    /// that replaying the list in order never overwrites a gem.
    Dropped(Vec<Drop>),
    /// A gem was popped.
    Popped(Position),
    /// New gems were put into empty cells.
    Spawned(Vec<(Position, u32)>),
    /// The matches on the board.
    Matched(Matches),
    /// The board was shuffled: each pair moves a gem from .0 to .1.
    Shuffled(Vec<(Position, Position)>),
}

/// The queue through which commands reach the board.
pub struct BoardCommands(queues::Queue<BoardCommand>);

impl View for BoardCommands {
    type V = Seq<BoardCommand>;

    closed spec fn view(&self) -> Seq<BoardCommand> {
        command_queue_items(self.0)
    }
}

impl BoardCommands {
    /// An empty command queue.
    pub fn new() -> (r: BoardCommands)
        ensures
            r@ == Seq::<BoardCommand>::empty(),
    {
        BoardCommands(new_command_queue())
    }

    /// Puts a command at the back of the queue.
    pub fn push(&mut self, command: BoardCommand) -> (r: Result<(), QueueError>)
        ensures
            r is Ok,
            final(self)@ == old(self)@.push(command),
    {
        add_command(&mut self.0, command);
        Ok(())
    }

    /// Takes the oldest command off the queue.
    pub fn pop(&mut self) -> (r: Result<BoardCommand, QueueEmpty>)
        ensures
            old(self)@.len() == 0 ==> r == Err::<BoardCommand, QueueEmpty>(QueueEmpty) && final(self)@ == old(self)@,
            old(self)@.len() > 0 ==> r == Ok::<BoardCommand, QueueEmpty>(old(self)@[0]) && final(self)@ == old(self)@.drop_first(),
    {
        match remove_command(&mut self.0) {
            Some(c) => Ok(c),
            None => Err(QueueEmpty),
        }
    }
}

impl Default for BoardCommands {
    fn default() -> (r: BoardCommands)
        ensures
            r@ == Seq::<BoardCommand>::empty(),
    {
        BoardCommands::new()
    }
}

/// The queue through which the board reports what happened.
pub struct BoardEvents(queues::Queue<BoardEvent>);

impl View for BoardEvents {
    type V = Seq<BoardEvent>;

    closed spec fn view(&self) -> Seq<BoardEvent> {
        event_queue_items(self.0)
    }
}

impl BoardEvents {
    /// An empty event queue.
    pub fn new() -> (r: BoardEvents)
        ensures
            r@ == Seq::<BoardEvent>::empty(),
    {
        BoardEvents(new_event_queue())
    }

    pub(crate) fn push(&mut self, event: BoardEvent)
        ensures
            final(self)@ == old(self)@.push(event),
    {
        add_event(&mut self.0, event);
    }

    /// Takes the oldest event off the queue.
    pub fn pop(&mut self) -> (r: Result<BoardEvent, QueueEmpty>)
        ensures
            old(self)@.len() == 0 ==> r == Err::<BoardEvent, QueueEmpty>(QueueEmpty) && final(self)@ == old(self)@,
            old(self)@.len() > 0 ==> r == Ok::<BoardEvent, QueueEmpty>(old(self)@[0]) && final(self)@ == old(self)@.drop_first(),
    {
        match remove_event(&mut self.0) {
            Some(e) => Ok(e),
            None => Err(QueueEmpty),
        }
    }
}

impl Default for BoardEvents {
    fn default() -> (r: BoardEvents)
        ensures
            r@ == Seq::<BoardEvent>::empty(),
    {
        BoardEvents::new()
    }
}

/// Holds of a drop that starts on row `k`.
pub open spec fn from_row(k: u32) -> spec_fn(Drop) -> bool {
    |d: Drop| d.from.y == k
}

/// `r` is `s` ordered by starting row, highest row number first, with drops
/// that start on the same row kept in their order in `s`.
pub open spec fn sorted_drops(s: Seq<Drop>, r: Seq<Drop>) -> bool {
    &&& forall|i: int, j: int| 0 <= i < j < r.len() ==> r[i].from.y >= r[j].from.y
    &&& forall|k: u32| #[trigger] r.filter(from_row(k)) == s.filter(from_row(k))
}

proof fn lemma_filter_rows(s: Seq<Drop>, a: u32, k: u32)
    ensures
        s.filter(from_row(a)).filter(from_row(k)) == (if a == k {
            s.filter(from_row(k))
        } else {
            Seq::<Drop>::empty()
        }),
    decreases s.len(),
{
    reveal(Seq::filter);
    if s.len() > 0 {
        let t = s.drop_last();
        let e = s.last();
        assert(s =~= t.push(e));
        lemma_filter_rows(t, a, k);
        t.lemma_filter_push(e, from_row(a));
        t.lemma_filter_push(e, from_row(k));
        if from_row(a)(e) {
            t.filter(from_row(a)).lemma_filter_push(e, from_row(k));
        }
    } else {
        assert(s.filter(from_row(a)) =~= s);
    }
}

proof fn lemma_filter_none(s: Seq<Drop>, k: u32)
    requires
        forall|i: int| 0 <= i < s.len() ==> s[i].from.y != k,
    ensures
        s.filter(from_row(k)) == Seq::<Drop>::empty(),
{
    s.filter_lemma(from_row(k));
    if s.filter(from_row(k)).len() > 0 {
        let d = s.filter(from_row(k))[0];
        assert(from_row(k)(d));
        assert(s.filter(from_row(k)).contains(d));
        s.lemma_filter_contains_rev(from_row(k), d);
        let i = choose|i: int| 0 <= i < s.len() && s[i] == d;
    }
    assert(s.filter(from_row(k)) =~= Seq::<Drop>::empty());
}

/// The rows at and above which the drops are already in place.
spec fn limit(bound: Option<u32>) -> int {
    match bound {
        Some(b) => b as int,
        None => u32::MAX as int + 1,
    }
}

/// Orders drops by starting row, highest row number first (the gem that
/// starts lowest on the screen moves first); drops that start on the same row
/// keep their order.
pub fn sort_drops(drops: &Vec<Drop>) -> (r: Vec<Drop>)
    ensures
        sorted_drops(drops@, r@),
{
    let ghost s = drops@;
    let mut r: Vec<Drop> = Vec::new();
    let mut bound: Option<u32> = None;
    loop
        invariant
            s == drops@,
            forall|i: int, j: int| 0 <= i < j < r@.len() ==> r@[i].from.y >= r@[j].from.y,
            forall|i: int| 0 <= i < r@.len() ==> r@[i].from.y >= limit(bound),
            forall|k: u32| #[trigger] r@.filter(from_row(k)) == (if k >= limit(bound) {
                s.filter(from_row(k))
            } else {
                Seq::<Drop>::empty()
            }),
        ensures
            sorted_drops(s, r@),
        decreases limit(bound),
    {
        let mut found = false;
        let mut best: u32 = 0;
        let mut i: usize = 0;
        while i < drops.len()
            invariant
                i <= drops@.len(),
                found ==> best < limit(bound),
                forall|j: int| 0 <= j < i && drops@[j].from.y < limit(bound) ==> found && drops@[j].from.y <= best,
            decreases drops@.len() - i,
        {
            let k = drops[i].from.y;
            let below = match bound {
                Some(b) => k < b,
                None => true,
            };
            if below && (!found || k > best) {
                found = true;
                best = k;
            }
            i += 1;
        }
        if !found {
            proof {
                assert forall|k: u32| #[trigger] r@.filter(from_row(k)) == s.filter(from_row(k)) by {
                    if k < limit(bound) {
                        lemma_filter_none(s, k);
                    }
                }
            }
            break;
        }
        let ghost r0 = r@;
        let mut j: usize = 0;
        while j < drops.len()
            invariant
                s == drops@,
                j <= drops@.len(),
                r@ == r0 + s.take(j as int).filter(from_row(best)),
            decreases drops@.len() - j,
        {
            let d = drops[j];
            proof {
                assert(s.take(j + 1) =~= s.take(j as int).push(d));
                s.take(j as int).lemma_filter_push(d, from_row(best));
            }
            if d.from.y == best {
                r.push(d);
            }
            j += 1;
        }
        proof {
            assert(s.take(s.len() as int) =~= s);
            let added = s.filter(from_row(best));
            added.filter_lemma(from_row(best));
            assert forall|i: int, j: int| 0 <= i < j < r@.len() implies r@[i].from.y >= r@[j].from.y by {
                if j >= r0.len() {
                    assert(r@[j] == added[j - r0.len()]);
                    assert(from_row(best)(added[j - r0.len()]));
                    if i >= r0.len() {
                        assert(r@[i] == added[i - r0.len()]);
                        assert(from_row(best)(added[i - r0.len()]));
                    }
                }
            }
            assert forall|i: int| 0 <= i < r@.len() implies r@[i].from.y >= best by {
                if i >= r0.len() {
                    assert(r@[i] == added[i - r0.len()]);
                    assert(from_row(best)(added[i - r0.len()]));
                }
            }
            assert forall|k: u32| #[trigger] r@.filter(from_row(k)) == (if k >= best {
                s.filter(from_row(k))
            } else {
                Seq::<Drop>::empty()
            }) by {
                Seq::filter_distributes_over_add(r0, added, from_row(k));
                lemma_filter_rows(s, best, k);
                if best < k < limit(bound) {
                    lemma_filter_none(s, k);
                }
                if k == best {
                    assert(r0.filter(from_row(k)) =~= Seq::<Drop>::empty());
                }
                assert(r0.filter(from_row(k)) + added.filter(from_row(k)) =~= (if k >= best {
                    s.filter(from_row(k))
                } else {
                    Seq::<Drop>::empty()
                }));
            }
        }
        bound = Some(best);
    }
    r
}

/// The drops that a list of (from, to) moves stands for.
pub open spec fn as_drops(moves: Seq<(Position, Position)>) -> Seq<Drop> {
    moves.map_values(|m: (Position, Position)| Drop { from: m.0, to: m.1 })
}

fn to_drops(moves: &Vec<(Position, Position)>) -> (r: Vec<Drop>)
    ensures
        r@ == as_drops(moves@),
{
    let mut r: Vec<Drop> = Vec::new();
    let mut i: usize = 0;
    while i < moves.len()
        invariant
            i <= moves@.len(),
            r@ =~= as_drops(moves@.take(i as int)),
        decreases moves@.len() - i,
    {
        let (from, to) = moves[i];
        r.push(Drop { from, to });
        i += 1;
        assert(r@ =~= as_drops(moves@.take(i as int)));
    }
    assert(moves@.take(moves@.len() as int) =~= moves@);
    r
}

/// The steps of a pop: `b` with the cells of `ps` emptied, gems falling as
/// `moves` says (reported, ordered, as `drops`) to give `mid`, then `mid`
/// refilled to `a` with `spawned`.
pub open spec fn pop_steps(
    b: BoardModel,
    ps: Seq<Position>,
    mid: BoardModel,
    moves: Seq<(Position, Position)>,
    drops: Seq<Drop>,
    spawned: Seq<(Position, u32)>,
    a: BoardModel,
) -> bool {
    &&& b.without(ps).dropped(mid)
    &&& b.without(ps).reports_drops(moves)
    &&& sorted_drops(as_drops(moves), drops)
    &&& mid.refilled(a, spawned)
}

/// What a swap command does: a swap that makes a match is made and reported
/// with the matches then on the board; any other is refused and leaves the
/// board as it was.
pub open spec fn swap_outcome(b: BoardModel, p1: Position, p2: Position, a: BoardModel, evs: Seq<BoardEvent>) -> bool {
    if b.cells.contains_key(p1.key()) && b.cells.contains_key(p2.key()) && b.swapped(p1, p2).has_match() {
        &&& a == b.swapped(p1, p2)
        &&& evs.len() == 2
        &&& evs[0] == BoardEvent::Swapped(p1, p2)
        &&& match evs[1] {
            BoardEvent::Matched(ms) => a.reports(ms@),
            _ => false,
        }
    } else {
        a == b && evs == seq![BoardEvent::FailedSwap(p1, p2)]
    }
}

/// What a pop command does: one `Popped` per position in order, then the
/// drops, then the spawns, then the matches if the board has any.
pub open spec fn pop_outcome(b: BoardModel, ps: Seq<Position>, a: BoardModel, evs: Seq<BoardEvent>) -> bool {
    let m = ps.len() as int;
    &&& evs.len() == m + 2 + (if a.has_match() { 1int } else { 0int })
    &&& forall|i: int| 0 <= i < m ==> #[trigger] evs[i] == BoardEvent::Popped(ps[i])
    &&& match evs[m] {
        BoardEvent::Dropped(drops) => match evs[m + 1] {
            BoardEvent::Spawned(spawned) => exists|mid: BoardModel, moves: Seq<(Position, Position)>|
                #[trigger] pop_steps(b, ps, mid, moves, drops@, spawned@, a),
            _ => false,
        },
        _ => false,
    }
    &&& a.has_match() ==> match evs[m + 2] {
        BoardEvent::Matched(ms) => a.reports(ms@),
        _ => false,
    }
}

/// What a shuffle command does: the board is shuffled and the moves reported.
pub open spec fn shuffle_outcome(b: BoardModel, a: BoardModel, evs: Seq<BoardEvent>) -> bool {
    &&& evs.len() == 1
    &&& match evs[0] {
        BoardEvent::Shuffled(moves) => b.shuffled_to(a, moves@),
        _ => false,
    }
}

/// Carrying out `c` on board `b` may leave board `a` and report `evs`.
pub open spec fn command_outcome(b: BoardModel, c: BoardCommand, a: BoardModel, evs: Seq<BoardEvent>) -> bool {
    &&& a.full()
    &&& a.width == b.width
    &&& a.height == b.height
    &&& a.types == b.types
    &&& match c {
        BoardCommand::Swap(p1, p2) => swap_outcome(b, p1, p2, a, evs),
        BoardCommand::Pop(ps) => pop_outcome(b, ps@, a, evs),
        BoardCommand::Shuffle => shuffle_outcome(b, a, evs),
    }
}

/// `boards` and `chunks` witness that carrying out `cmds` in order on `b`
/// may leave `a` and report `evs`: command `i` takes `boards[i]` to
/// `boards[i + 1]` and reports `chunks[i]`.
pub open spec fn trace(
    b: BoardModel,
    cmds: Seq<BoardCommand>,
    a: BoardModel,
    evs: Seq<BoardEvent>,
    boards: Seq<BoardModel>,
    chunks: Seq<Seq<BoardEvent>>,
) -> bool {
    &&& boards.len() == cmds.len() + 1
    &&& chunks.len() == cmds.len()
    &&& boards[0] == b
    &&& boards[cmds.len() as int] == a
    &&& forall|i: int| 0 <= i < cmds.len() ==> #[trigger] command_outcome(boards[i], cmds[i], boards[i + 1], chunks[i])
    &&& evs == chunks.flatten_alt()
}

/// Carries out one command on the board and reports what happened.
pub fn process_command(board: &mut Board, events: &mut BoardEvents, command: BoardCommand)
    requires
        old(board)@.full(),
    ensures
        final(events)@.len() >= old(events)@.len(),
        final(events)@.take(old(events)@.len() as int) == old(events)@,
        command_outcome(old(board)@, command, final(board)@, final(events)@.skip(old(events)@.len() as int)),
{
    let ghost b0 = board@;
    let ghost e0 = events@;
    match command {
        BoardCommand::Swap(pos1, pos2) => {
            if board.swap(&pos1, &pos2).is_ok() {
                events.push(BoardEvent::Swapped(pos1, pos2));
                let matches = board.get_matches();
                events.push(BoardEvent::Matched(matches));
                proof {
                    assert(events@.take(e0.len() as int) =~= e0);
                    let evs = events@.skip(e0.len() as int);
                    assert(evs =~= seq![BoardEvent::Swapped(pos1, pos2), BoardEvent::Matched(matches)]);
                    assert(swap_outcome(b0, pos1, pos2, board@, evs));
                }
            } else {
                events.push(BoardEvent::FailedSwap(pos1, pos2));
                proof {
                    assert(events@.take(e0.len() as int) =~= e0);
                    assert(events@.skip(e0.len() as int) =~= seq![BoardEvent::FailedSwap(pos1, pos2)]);
                    assert(swap_outcome(b0, pos1, pos2, board@, events@.skip(e0.len() as int)));
                }
            }
        },
        BoardCommand::Pop(gems) => {
            let mut i: usize = 0;
            while i < gems.len()
                invariant
                    b0.full(),
                    i <= gems@.len(),
                    board@ == b0.without(gems@.take(i as int)),
                    board@.wf(),
                    board@.width == b0.width,
                    board@.height == b0.height,
                    board@.types == b0.types,
                    events@.len() == e0.len() + i,
                    events@.take(e0.len() as int) == e0,
                    forall|j: int| 0 <= j < i ==> #[trigger] events@[e0.len() + j] == BoardEvent::Popped(gems@[j]),
                decreases gems@.len() - i,
            {
                let ghost before = board@;
                board.remove(&gems[i]);
                events.push(BoardEvent::Popped(gems[i]));
                proof {
                    assert(gems@.take(i + 1).drop_last() =~= gems@.take(i as int));
                    assert(events@.take(e0.len() as int) =~= e0);
                    assert forall|j: int| 0 <= j < i + 1 implies #[trigger] events@[e0.len() + j] == BoardEvent::Popped(gems@[j]) by {
                        if j < i {
                            assert(events@[e0.len() + j] == events@.drop_last()[e0.len() + j]);
                        }
                    }
                }
                i += 1;
            }
            let moves = board.drop();
            let ghost mid = board@;
            let drops = sort_drops(&to_drops(&moves));
            events.push(BoardEvent::Dropped(drops));
            let spawned = board.fill();
            events.push(BoardEvent::Spawned(spawned));
            let matches = board.get_matches();
            let found = !matches.is_empty();
            if found {
                events.push(BoardEvent::Matched(matches));
            }
            proof {
                assert(gems@.take(gems@.len() as int) =~= gems@);
                assert(events@.take(e0.len() as int) =~= e0);
                let evs = events@.skip(e0.len() as int);
                let m = gems@.len() as int;
                assert forall|j: int| 0 <= j < m implies #[trigger] evs[j] == BoardEvent::Popped(gems@[j]) by {
                    assert(evs[j] == events@[e0.len() + j]);
                }
                assert(evs[m]->Dropped_0 == drops);
                assert(evs[m + 1]->Spawned_0 == spawned);
                assert(pop_steps(b0, gems@, mid, moves@, evs[m]->Dropped_0@, evs[m + 1]->Spawned_0@, board@));
                if found {
                    assert(evs[m + 2] == BoardEvent::Matched(matches));
                }
            }
        },
        BoardCommand::Shuffle => {
            let moves = board.shuffle();
            events.push(BoardEvent::Shuffled(moves));
            proof {
                assert(events@.take(e0.len() as int) =~= e0);
                assert(events@.skip(e0.len() as int) =~= seq![BoardEvent::Shuffled(moves)]);
                assert(shuffle_outcome(b0, board@, events@.skip(e0.len() as int)));
            }
        },
    }
}

/// Takes every command off `commands`, oldest first, carries each out on the
/// board and reports what happened on `events`.
pub fn read_commands(commands: &mut BoardCommands, events: &mut BoardEvents, board: &mut Board)
    requires
        old(board)@.full(),
    ensures
        final(commands)@.len() == 0,
        final(board)@.full(),
        final(events)@.len() >= old(events)@.len(),
        final(events)@.take(old(events)@.len() as int) == old(events)@,
        exists|boards: Seq<BoardModel>, chunks: Seq<Seq<BoardEvent>>|
            #[trigger] trace(old(board)@, old(commands)@, final(board)@, final(events)@.skip(old(events)@.len() as int), boards, chunks),
{
    let ghost b0 = board@;
    let ghost c0 = commands@;
    let ghost e0 = events@;
    let ghost mut boards: Seq<BoardModel> = seq![b0];
    let ghost mut chunks: Seq<Seq<BoardEvent>> = Seq::empty();
    loop
        invariant
            board@.full(),
            c0.len() == chunks.len() + commands@.len(),
            commands@ == c0.skip(chunks.len() as int),
            boards.len() == chunks.len() + 1,
            boards[0] == b0,
            boards[chunks.len() as int] == board@,
            forall|i: int| 0 <= i < chunks.len() ==> #[trigger] command_outcome(boards[i], c0[i], boards[i + 1], chunks[i]),
            events@.len() >= e0.len(),
            events@.take(e0.len() as int) == e0,
            events@.skip(e0.len() as int) == chunks.flatten_alt(),
        ensures
            commands@.len() == 0,
            board@.full(),
            events@.len() >= e0.len(),
            events@.take(e0.len() as int) == e0,
            trace(b0, c0, board@, events@.skip(e0.len() as int), boards, chunks),
        decreases commands@.len(),
    {
        let ghost pending = commands@;
        match commands.pop() {
            Ok(command) => {
                let ghost before = board@;
                let ghost e1 = events@;
                process_command(board, events, command);
                proof {
                    let chunk = events@.skip(e1.len() as int);
                    assert(command == c0[chunks.len() as int]);
                    let old_chunks = chunks;
                    boards = boards.push(board@);
                    chunks = chunks.push(chunk);
                    assert(chunks.drop_last() =~= old_chunks);
                    assert(commands@ =~= c0.skip(chunks.len() as int));
                    assert(events@.take(e0.len() as int) =~= e0) by {
                        assert(events@.take(e1.len() as int) == e1);
                        assert forall|j: int| 0 <= j < e0.len() implies events@[j] == e0[j] by {
                            assert(events@[j] == events@.take(e1.len() as int)[j]);
                            assert(e1[j] == e1.take(e0.len() as int)[j]);
                        }
                    }
                    assert(events@.skip(e0.len() as int) =~= e1.skip(e0.len() as int) + chunk) by {
                        assert(events@.take(e1.len() as int) == e1);
                        assert forall|j: int| 0 <= j < e1.len() - e0.len() implies events@.skip(e0.len() as int)[j] == e1.skip(e0.len() as int)[j] by {
                            assert(events@[e0.len() + j] == events@.take(e1.len() as int)[e0.len() + j]);
                        }
                    }
                    assert forall|i: int| 0 <= i < chunks.len() implies #[trigger] command_outcome(boards[i], c0[i], boards[i + 1], chunks[i]) by {
                        if i < old_chunks.len() {
                            assert(boards[i] == boards.drop_last()[i]);
                        }
                    }
                }
            },
            Err(_) => {
                proof {
                    assert(c0.skip(chunks.len() as int).len() == 0);
                    assert(chunks.len() == c0.len());
                }
                break;
            },
        }
    }
    proof {
        assert(trace(b0, c0, board@, events@.skip(e0.len() as int), boards, chunks));
    }
}

} // verus!
