//! The walker: from events to manifest paths.
//!
//! The walker knows one shape: an object at the root, in it the key
//! `packages`, behind that key an array, and in the array objects that may
//! hold the key `manifest_path` with a string behind it.  It keeps a nesting
//! depth and four flags, and looks at each event once.
use crate::event::{JsonEvent, Token};
use crate::scanner::{
    lemma_next_token_advances, lemma_next_token_extends, next_token, tokens, tokens_from,
    JsonScanner,
};
use crate::text::same_text;
use vstd::prelude::*;

verus! {

/// What the walker remembers between two events.
pub struct Walk {
    /// Brackets opened so far minus brackets closed so far.
    pub depth: int,
    /// The `{` of the root object has been seen.
    pub at_root_object: bool,
    /// The key `packages` has been seen in the root object.
    pub in_target_array: bool,
    /// The walker is inside an object that is an element of the array.
    pub in_array_item: bool,
    /// The key `manifest_path` was the last thing seen in that object.
    pub awaiting_value: bool,
}

/// What one event makes the walker do, besides changing its state.
pub enum Effect {
    /// Nothing.
    Nothing,
    /// Add this text to the result.
    Capture(Seq<char>),
    /// End the walk: no later event is looked at.
    Stop,
}

impl Walk {
    /// The state before the first event.
    pub open spec fn start() -> Walk {
        Walk {
            depth: 0,
            at_root_object: false,
            in_target_array: false,
            in_array_item: false,
            awaiting_value: false,
        }
    }

    /// No flag is set.
    pub open spec fn fresh(self) -> bool {
        !self.at_root_object && !self.in_target_array && !self.in_array_item
            && !self.awaiting_value
    }
}

/// One step of the walker.  The depth is adjusted first, and the rules are
/// read against the adjusted depth: the `]` that closes the array of packages
/// is met at depth 1.  The flags are read as they were before the event.
///
/// - Depth 1, no flag set, `{`: the root object is entered.
/// - Depth 1, in the root object, `packages` not yet seen, the key `packages`:
///   the key is noted.
/// - Depth 3, `packages` seen, not in an item, `{`: an item is entered.
/// - Depth 3, in an item, no value awaited, the key `manifest_path`: its value
///   is awaited.
/// - Depth 3, in an item, a value awaited: the wait ends with this event.  A
///   string is captured.  Anything else is dropped, and with it the key that
///   was waiting; a key that arrives here is not looked at, whatever its name.
/// - Depth 2, in an item, `}`: the item is left.
/// - Depth 1, `packages` seen, `]`: the walk stops.
///
/// An event that fits none of the rules, such as the `[` that opens the array
/// or anything nested deeper than an item, changes the depth at most.  So a
/// value that opens a bracket is awaited until the bracket closes, and the
/// closing bracket ends the wait.
pub open spec fn transition(state: Walk, token: Token) -> (Walk, Effect) {
    let depth = state.depth + token.depth_change();
    let moved = Walk { depth, ..state };
    if depth == 1 && state.fresh() && token is EnterObj {
        (Walk { at_root_object: true, ..moved }, Effect::Nothing)
    } else if depth == 1 && state.at_root_object && !state.in_target_array && token
        == Token::Entry("packages"@) {
        (Walk { in_target_array: true, ..moved }, Effect::Nothing)
    } else if depth == 3 && state.in_target_array && !state.in_array_item && token is EnterObj {
        (Walk { in_array_item: true, ..moved }, Effect::Nothing)
    } else if depth == 3 && state.in_array_item && !state.awaiting_value && token == Token::Entry(
        "manifest_path"@,
    ) {
        (Walk { awaiting_value: true, ..moved }, Effect::Nothing)
    } else if depth == 3 && state.in_array_item && state.awaiting_value {
        match token {
            Token::Str(text) => (Walk { awaiting_value: false, ..moved }, Effect::Capture(text)),
            _ => (Walk { awaiting_value: false, ..moved }, Effect::Nothing),
        }
    } else if depth == 2 && state.in_array_item && token is ExitObj {
        (Walk { in_array_item: false, ..moved }, Effect::Nothing)
    } else if depth == 1 && state.in_target_array && token is ExitList {
        (moved, Effect::Stop)
    } else {
        (moved, Effect::Nothing)
    }
}

/// The texts captured while walking over `tokens` from `state`, in order, up
/// to the end of the events or to the first stop.
pub open spec fn collect(state: Walk, tokens: Seq<Token>) -> Seq<Seq<char>>
    decreases tokens.len(),
{
    if tokens.len() == 0 {
        Seq::empty()
    } else {
        let (next, effect) = transition(state, tokens[0]);
        match effect {
            Effect::Stop => Seq::empty(),
            Effect::Capture(text) => seq![text] + collect(next, tokens.drop_first()),
            Effect::Nothing => collect(next, tokens.drop_first()),
        }
    }
}

/// Whether the walk over `tokens` from `state` comes to a stop.
pub open spec fn stops(state: Walk, tokens: Seq<Token>) -> bool
    decreases tokens.len(),
{
    if tokens.len() == 0 {
        false
    } else {
        let (next, effect) = transition(state, tokens[0]);
        effect is Stop || stops(next, tokens.drop_first())
    }
}

/// The manifest paths of a text: what a fresh walker captures from its events.
pub open spec fn manifest_paths(text: Seq<char>) -> Seq<Seq<char>> {
    collect(Walk::start(), tokens(text))
}

/// The walker's state as the program holds it.
#[derive(Debug, Clone, Copy)]
pub struct ExtractionState {
    /// Brackets opened so far minus brackets closed so far.  The type is wide
    /// enough for every bracket of a text that fits in memory, either way.
    pub depth: i128,
    /// The `{` of the root object has been seen.
    pub at_root_object: bool,
    /// The key `packages` has been seen in the root object.
    pub in_target_array: bool,
    /// The walker is inside an object that is an element of the array.
    pub in_array_item: bool,
    /// The key `manifest_path` was the last thing seen in that object.
    pub awaiting_value: bool,
}

impl View for ExtractionState {
    type V = Walk;

    open spec fn view(&self) -> Walk {
        Walk {
            depth: self.depth as int,
            at_root_object: self.at_root_object,
            in_target_array: self.in_target_array,
            in_array_item: self.in_array_item,
            awaiting_value: self.awaiting_value,
        }
    }
}

/// What the caller of [`ExtractionState::step`] has to do with the event.
#[derive(Debug, Clone, Copy)]
pub enum Action<'src> {
    /// Go on with the next event.
    Continue,
    /// Add this text to the result, then go on.
    Capture(&'src str),
    /// End the walk.
    Stop,
}

impl<'src> View for Action<'src> {
    type V = Effect;

    open spec fn view(&self) -> Effect {
        match *self {
            Action::Continue => Effect::Nothing,
            Action::Capture(text) => Effect::Capture(text@),
            Action::Stop => Effect::Stop,
        }
    }
}

/// Whether `event` is the key `name`.
fn is_key(event: JsonEvent<'_>, name: &str) -> (yes: bool)
    ensures
        yes == (event@ == Token::Entry(name@)),
{
    match event {
        JsonEvent::Entry(key) => same_text(key, name),
        _ => false,
    }
}

impl ExtractionState {
    /// The state before the first event.
    pub fn new() -> (state: Self)
        ensures
            state@ == Walk::start(),
    {
        ExtractionState {
            depth: 0,
            at_root_object: false,
            in_target_array: false,
            in_array_item: false,
            awaiting_value: false,
        }
    }

    /// Takes one event: gives the state behind it and what to do with it.
    pub fn step<'src>(self, event: JsonEvent<'src>) -> (next: (Self, Action<'src>))
        requires
            i128::MIN < self.depth < i128::MAX,
        ensures
            next.0@ == transition(self@, event@).0,
            next.1@ == transition(self@, event@).1,
    {
        let depth = match event {
            JsonEvent::EnterObj | JsonEvent::EnterList => self.depth + 1,
            JsonEvent::ExitObj | JsonEvent::ExitList => self.depth - 1,
            JsonEvent::Entry(_) | JsonEvent::Str(_) => self.depth,
        };
        let mut state = self;
        state.depth = depth;
        let fresh = !self.at_root_object && !self.in_target_array && !self.in_array_item
            && !self.awaiting_value;
        if depth == 1 && fresh && matches!(event, JsonEvent::EnterObj) {
            state.at_root_object = true;
            (state, Action::Continue)
        } else if depth == 1 && self.at_root_object && !self.in_target_array && is_key(
            event,
            "packages",
        ) {
            state.in_target_array = true;
            (state, Action::Continue)
        } else if depth == 3 && self.in_target_array && !self.in_array_item && matches!(
            event,
            JsonEvent::EnterObj
        ) {
            state.in_array_item = true;
            (state, Action::Continue)
        } else if depth == 3 && self.in_array_item && !self.awaiting_value && is_key(
            event,
            "manifest_path",
        ) {
            state.awaiting_value = true;
            (state, Action::Continue)
        } else if depth == 3 && self.in_array_item && self.awaiting_value {
            state.awaiting_value = false;
            match event {
                JsonEvent::Str(text) => (state, Action::Capture(text)),
                _ => (state, Action::Continue),
            }
        } else if depth == 2 && self.in_array_item && matches!(event, JsonEvent::ExitObj) {
            state.in_array_item = false;
            (state, Action::Continue)
        } else if depth == 1 && self.in_target_array && matches!(event, JsonEvent::ExitList) {
            (state, Action::Stop)
        } else {
            (state, Action::Continue)
        }
    }
}

/// The manifest paths named in `metadata`, in the order in which they stand
/// there, each one a slice of `metadata` exactly as written between its
/// quotes.  Nothing is reported as an error: a text of another shape gives
/// fewer paths, or none.
pub fn get_dependencies<'src>(metadata: &'src str) -> (dependencies: Vec<&'src str>)
    ensures
        dependencies.deep_view() == manifest_paths(metadata@),
{
    let mut scanner = JsonScanner::new(metadata);
    let mut state = ExtractionState::new();
    let mut dependencies: Vec<&'src str> = Vec::new();
    proof {
        assert(dependencies.deep_view() =~= Seq::<Seq<char>>::empty());
    }
    loop
        invariant
            scanner.source() == metadata@,
            0 <= scanner.position() <= metadata@.len(),
            scanner.position() <= usize::MAX,
            -scanner.position() <= state.depth <= scanner.position(),
            manifest_paths(metadata@) == dependencies.deep_view() + collect(
                state@,
                scanner.pending(),
            ),
        decreases metadata@.len() - scanner.position(),
    {
        let ghost found = dependencies.deep_view();
        match scanner.next() {
            None => {
                proof {
                    assert(found + Seq::<Seq<char>>::empty() =~= found);
                }
                return dependencies;
            },
            Some(event) => {
                let ghost rest = scanner.pending();
                proof {
                    assert((seq![event@] + rest).drop_first() =~= rest);
                }
                let (next, action) = state.step(event);
                state = next;
                match action {
                    Action::Stop => {
                        proof {
                            assert(found + Seq::<Seq<char>>::empty() =~= found);
                        }
                        return dependencies;
                    },
                    Action::Capture(path) => {
                        dependencies.push(path);
                        proof {
                            assert(dependencies.deep_view() =~= found.push(path@));
                            assert(found + (seq![path@] + collect(state@, rest)) =~= found.push(
                                path@,
                            ) + collect(state@, rest));
                        }
                    },
                    Action::Continue => {},
                }
            },
        }
    }
}

/// Running the extraction again on the same text gives the same paths.
pub proof fn lemma_rerun_gives_same_paths(metadata: &str, first: Vec<&str>, second: Vec<&str>)
    requires
        call_ensures(get_dependencies, (metadata,), first),
        call_ensures(get_dependencies, (metadata,), second),
    ensures
        first.deep_view() == second.deep_view(),
{
}

/// Once the walk from `state` over the events of `head` behind position `p`
/// has stopped, text that follows `head` changes nothing.
pub proof fn lemma_stopped_walk_ignores_tail(
    head: Seq<char>,
    tail: Seq<char>,
    p: int,
    state: Walk,
)
    requires
        stops(state, tokens_from(head, p)),
    ensures
        collect(state, tokens_from(head + tail, p)) == collect(state, tokens_from(head, p)),
    decreases head.len() - p,
{
    lemma_next_token_advances(head, p);
    match next_token(head, p) {
        Some((token, end)) => {
            let rest = tokens_from(head, end);
            assert((seq![token] + rest).drop_first() =~= rest);
            let (next, effect) = transition(state, token);
            if effect is Stop {
                lemma_next_token_extends(head, tail, p);
            } else {
                assert(stops(next, rest));
                lemma_next_token_extends(head, tail, p);
                lemma_stopped_walk_ignores_tail(head, tail, end, next);
                let more = tokens_from(head + tail, end);
                assert((seq![token] + more).drop_first() =~= more);
            }
        },
        None => {},
    }
}

/// Whatever follows the text on which the extraction has stopped, well formed
/// or not, the paths are those of that text alone.  The extraction stops at
/// the `]` that closes the array of packages.
pub proof fn lemma_text_behind_the_packages_is_ignored(head: Seq<char>, tail: Seq<char>)
    requires
        stops(Walk::start(), tokens(head)),
    ensures
        manifest_paths(head + tail) == manifest_paths(head),
{
    lemma_stopped_walk_ignores_tail(head, tail, 0, Walk::start());
}

} // verus!
