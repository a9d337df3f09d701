//! What the extraction gives on a text of the expected shape.
//!
//! The types here describe a text by its parts, as the scanner sees it: string
//! literals, bracketed groups, and between them filler, which is any text
//! without a bracket or a quote.  White space, commas, colons, numbers, `true`,
//! `false` and `null` are all filler, so every JSON value is a literal, a group
//! or a piece of filler.  A [`Document`] is a root object that holds the key
//! `packages` with an array of objects behind it, and
//! [`lemma_document_gives_its_paths`] says that the extraction yields the
//! values of the `manifest_path` keys of those objects, in order, as written.
use crate::event::Token;
use crate::extract::{collect, manifest_paths, transition, Effect, Walk};
use crate::scanner::{
    lemma_literal_end_extends, lemma_literal_end_shift, lemma_tokens_shift, literal_end,
    next_token, tokens,
};
use vstd::prelude::*;

verus! {

/// The five characters that mean something to the scanner outside a literal.
pub open spec fn is_mark(c: char) -> bool {
    c == '{' || c == '}' || c == '[' || c == ']' || c == '"'
}

/// Text that the scanner passes over without an event.
pub open spec fn is_filler(text: Seq<char>) -> bool {
    forall|i: int| 0 <= i < text.len() ==> !is_mark(#[trigger] text[i])
}

/// Whether `text` can stand between the quotes of a literal: the first quote
/// that closes it is the one put behind it.
pub open spec fn is_body(text: Seq<char>) -> bool {
    literal_end(text.push('"'), 0) == Some(text.len() as int)
}

/// Whether the first character of `text` is a colon.
pub open spec fn starts_with_colon(text: Seq<char>) -> bool {
    text.len() > 0 && text[0] == ':'
}

/// The literal with `text` between its quotes.
pub open spec fn quoted(text: Seq<char>) -> Seq<char> {
    seq!['"'] + text + seq!['"']
}

/// The event for a literal that has `rest` behind it.
pub open spec fn literal_token(text: Seq<char>, rest: Seq<char>) -> Token {
    if starts_with_colon(rest) {
        Token::Entry(text)
    } else {
        Token::Str(text)
    }
}

/// The bracket that opens a group.
pub open spec fn opener(list: bool) -> char {
    if list {
        '['
    } else {
        '{'
    }
}

/// The bracket that closes a group.
pub open spec fn closer(list: bool) -> char {
    if list {
        ']'
    } else {
        '}'
    }
}

/// The event for a bracket.
pub open spec fn bracket_token(c: char) -> Token {
    if c == '{' {
        Token::EnterObj
    } else if c == '}' {
        Token::ExitObj
    } else if c == '[' {
        Token::EnterList
    } else {
        Token::ExitList
    }
}

/// A value that is not filler: a string literal, or an object or array with
/// all that stands in it.
pub enum Node {
    /// A string literal, given by the text between its quotes.
    Literal(Seq<char>),
    /// An array (`list`) or an object: its bracket, filler, and then items.
    Group { list: bool, lead: Seq<char>, items: Seq<Item> },
}

/// A literal or group inside a group, with the filler behind it.
pub struct Item {
    pub node: Node,
    pub tail: Seq<char>,
}

impl Node {
    /// The text of the node.
    pub open spec fn render(self) -> Seq<char>
        decreases self,
    {
        match self {
            Node::Literal(text) => quoted(text),
            Node::Group { list, lead, items } => seq![opener(list)] + lead + render_items(items)
                + seq![closer(list)],
        }
    }

    /// Every literal in the node has a body, and all filler is filler.
    pub open spec fn well_formed(self) -> bool
        decreases self,
    {
        match self {
            Node::Literal(text) => is_body(text),
            Node::Group { list, lead, items } => is_filler(lead) && items_well_formed(items),
        }
    }
}

/// The text of a row of items.
pub open spec fn render_items(items: Seq<Item>) -> Seq<char>
    decreases items,
{
    if items.len() == 0 {
        Seq::empty()
    } else {
        items[0].node.render() + items[0].tail + render_items(items.drop_first())
    }
}

/// Every item is well formed.
pub open spec fn items_well_formed(items: Seq<Item>) -> bool
    decreases items,
{
    if items.len() == 0 {
        true
    } else {
        items[0].node.well_formed() && is_filler(items[0].tail) && items_well_formed(
            items.drop_first(),
        )
    }
}

/// One member of an object: a key, the filler behind it, a literal or group as
/// value, and the filler behind that.  A value that is a number or a word is
/// part of the filler behind the key, and `value` is `None`.
pub struct Member {
    pub key: Seq<char>,
    pub sep: Seq<char>,
    pub value: Option<Node>,
    pub tail: Seq<char>,
}

impl Member {
    /// The text of the value, empty where the value is filler.
    pub open spec fn render_value(self) -> Seq<char> {
        match self.value {
            Some(node) => node.render(),
            None => Seq::empty(),
        }
    }

    /// The text of the member.
    pub open spec fn render(self) -> Seq<char> {
        quoted(self.key) + self.sep + self.render_value() + self.tail
    }

    /// The parts are what they are meant to be, and no colon follows a value
    /// that is a literal.
    pub open spec fn well_formed(self) -> bool {
        &&& is_body(self.key)
        &&& is_filler(self.sep)
        &&& is_filler(self.tail)
        &&& match self.value {
            Some(node) => node.well_formed() && (node is Literal ==> !starts_with_colon(self.tail)),
            None => true,
        }
    }

    /// A member named `manifest_path` has its colon right behind the key and
    /// a string as value.
    pub open spec fn fits_package(self) -> bool {
        self.key == "manifest_path"@ ==> starts_with_colon(self.sep) && (self.value matches Some(
            node,
        ) && node is Literal)
    }

    /// The path that the member names, if it names one.
    pub open spec fn paths(self) -> Seq<Seq<char>> {
        if self.key == "manifest_path"@ {
            match self.value {
                Some(Node::Literal(text)) => seq![text],
                _ => Seq::empty(),
            }
        } else {
            Seq::empty()
        }
    }
}

/// The text of a row of members.
pub open spec fn render_members(members: Seq<Member>) -> Seq<char>
    decreases members.len(),
{
    if members.len() == 0 {
        Seq::empty()
    } else {
        members[0].render() + render_members(members.drop_first())
    }
}

/// The paths that a row of members names, in order.
pub open spec fn members_paths(members: Seq<Member>) -> Seq<Seq<char>>
    decreases members.len(),
{
    if members.len() == 0 {
        Seq::empty()
    } else {
        members[0].paths() + members_paths(members.drop_first())
    }
}

/// One element of the array of packages: an object, with the filler behind
/// its closing brace.
pub struct Package {
    pub lead: Seq<char>,
    pub members: Seq<Member>,
    pub tail: Seq<char>,
}

impl Package {
    /// The text of the package.
    pub open spec fn render(self) -> Seq<char> {
        seq!['{'] + self.lead + render_members(self.members) + seq!['}'] + self.tail
    }

    /// The parts are what they are meant to be.
    pub open spec fn well_formed(self) -> bool {
        &&& is_filler(self.lead)
        &&& is_filler(self.tail)
        &&& forall|i: int|
            0 <= i < self.members.len() ==> (#[trigger] self.members[i]).well_formed()
                && self.members[i].fits_package()
    }
}

/// The text of a row of packages.
pub open spec fn render_packages(packages: Seq<Package>) -> Seq<char>
    decreases packages.len(),
{
    if packages.len() == 0 {
        Seq::empty()
    } else {
        packages[0].render() + render_packages(packages.drop_first())
    }
}

/// The paths that a row of packages names, in order.
pub open spec fn packages_paths(packages: Seq<Package>) -> Seq<Seq<char>>
    decreases packages.len(),
{
    if packages.len() == 0 {
        Seq::empty()
    } else {
        members_paths(packages[0].members) + packages_paths(packages.drop_first())
    }
}

/// A text of the expected shape.
///
/// It reads: `lead`, `{`, `root_lead`, the members `before`, the key
/// `"packages"`, `sep`, `[`, `array_lead`, the `packages`, `]`, `rest`.
pub struct Document {
    pub lead: Seq<char>,
    pub root_lead: Seq<char>,
    pub before: Seq<Member>,
    pub sep: Seq<char>,
    pub array_lead: Seq<char>,
    pub packages: Seq<Package>,
    pub rest: Seq<char>,
}

impl Document {
    /// The text of the document.
    pub open spec fn render(self) -> Seq<char> {
        self.lead + seq!['{'] + self.root_lead + render_members(self.before) + quoted(
            "packages"@,
        ) + self.sep + seq!['['] + self.array_lead + render_packages(self.packages) + seq![']']
            + self.rest
    }

    /// The parts are what they are meant to be, the colon stands right behind
    /// the key `packages`, and no member in front of it has that key.  Of
    /// `rest` nothing is asked.
    pub open spec fn well_formed(self) -> bool {
        &&& is_filler(self.lead)
        &&& is_filler(self.root_lead)
        &&& is_filler(self.sep)
        &&& starts_with_colon(self.sep)
        &&& is_filler(self.array_lead)
        &&& forall|i: int|
            0 <= i < self.before.len() ==> (#[trigger] self.before[i]).well_formed()
                && self.before[i].key != "packages"@
        &&& forall|i: int| 0 <= i < self.packages.len() ==> (#[trigger] self.packages[i]).well_formed()
    }

    /// The values of the `manifest_path` keys of the packages, in order.
    pub open spec fn paths(self) -> Seq<Seq<char>> {
        packages_paths(self.packages)
    }
}

/// Filler gives no event.
pub proof fn lemma_tokens_skip_filler(gap: Seq<char>, rest: Seq<char>)
    requires
        is_filler(gap),
    ensures
        tokens(gap + rest) == tokens(rest),
    decreases gap.len(),
{
    let s = gap + rest;
    if gap.len() == 0 {
        assert(s =~= rest);
    } else {
        assert(s[0] == gap[0]);
        assert(!is_mark(gap[0]));
        assert(next_token(s, 0) == next_token(s, 1));
        lemma_tokens_shift(s, 1, 0);
        assert(s.skip(1) =~= gap.drop_first() + rest);
        assert forall|i: int| 0 <= i < gap.drop_first().len() implies !is_mark(
            #[trigger] gap.drop_first()[i],
        ) by {
            assert(gap.drop_first()[i] == gap[i + 1]);
        }
        lemma_tokens_skip_filler(gap.drop_first(), rest);
    }
}

/// A bracket gives its event.
pub proof fn lemma_tokens_bracket(c: char, rest: Seq<char>)
    requires
        c == '{' || c == '}' || c == '[' || c == ']',
    ensures
        tokens(seq![c] + rest) == seq![bracket_token(c)] + tokens(rest),
{
    let s = seq![c] + rest;
    assert(s[0] == c);
    lemma_tokens_shift(s, 1, 0);
    assert(s.skip(1) =~= rest);
}

/// A literal gives one event: a key if a colon follows, else a string.
pub proof fn lemma_tokens_literal(text: Seq<char>, rest: Seq<char>)
    requires
        is_body(text),
    ensures
        tokens(quoted(text) + rest) == seq![literal_token(text, rest)] + tokens(rest),
{
    let s = quoted(text) + rest;
    let closed = text.push('"');
    let q = text.len() as int + 1;
    lemma_literal_end_extends(closed, rest, 0);
    assert(s.skip(1) =~= closed + rest);
    lemma_literal_end_shift(s, 1, 0);
    assert(literal_end(s, 1) == Some(q));
    assert(s[0] == '"');
    assert(s.subrange(1, q) =~= text);
    if rest.len() > 0 {
        assert(s[q + 1] == rest[0]);
    }
    lemma_tokens_shift(s, q + 1, 0);
    assert(s.skip(q + 1) =~= rest);
}

/// Text without quote and backslash can stand between quotes.
pub proof fn lemma_plain_text_is_body(text: Seq<char>, p: int)
    requires
        forall|i: int| 0 <= i < text.len() ==> text[i] != '"' && text[i] != '\\',
        0 <= p <= text.len(),
    ensures
        literal_end(text.push('"'), p) == Some(text.len() as int),
    decreases text.len() - p,
{
    let closed = text.push('"');
    if p < text.len() {
        assert(closed[p] == text[p]);
        lemma_plain_text_is_body(text, p + 1);
    } else {
        assert(closed[p] == '"');
    }
}

/// One step of a walk.
pub proof fn lemma_collect_first(state: Walk, token: Token, more: Seq<Token>)
    ensures
        collect(state, seq![token] + more) == match transition(state, token).1 {
            Effect::Stop => Seq::empty(),
            Effect::Capture(text) => seq![text] + collect(transition(state, token).0, more),
            Effect::Nothing => collect(transition(state, token).0, more),
        },
{
    assert((seq![token] + more).drop_first() =~= more);
}

/// A state in which nothing that is nested `margin` levels deeper, or more,
/// has any effect: the walker is in the root object in front of the key
/// `packages`, or in a package and not waiting for a value.
pub open spec fn calm(state: Walk, margin: int) -> bool {
    ||| state.at_root_object && !state.in_target_array && !state.in_array_item
        && !state.awaiting_value && state.depth >= 1 + margin
    ||| state.in_target_array && state.in_array_item && !state.awaiting_value && state.depth >= 3
        + margin
}

/// In a calm state a group changes nothing, and a literal that is nested
/// deeper changes nothing.
pub proof fn lemma_node_changes_nothing(state: Walk, node: Node, rest: Seq<char>)
    requires
        node.well_formed(),
        calm(state, 0),
        node is Literal ==> calm(state, 1),
    ensures
        collect(state, tokens(node.render() + rest)) == collect(state, tokens(rest)),
    decreases node,
{
    match node {
        Node::Literal(text) => {
            lemma_tokens_literal(text, rest);
            lemma_collect_first(state, literal_token(text, rest), tokens(rest));
        },
        Node::Group { list, lead, items } => {
            let inner = Walk { depth: state.depth + 1, ..state };
            let behind = seq![closer(list)] + rest;
            let inside = render_items(items) + behind;
            assert(node.render() + rest =~= seq![opener(list)] + (lead + inside));
            lemma_tokens_bracket(opener(list), lead + inside);
            lemma_collect_first(state, bracket_token(opener(list)), tokens(lead + inside));
            lemma_tokens_skip_filler(lead, inside);
            lemma_items_change_nothing(inner, items, behind);
            lemma_tokens_bracket(closer(list), rest);
            lemma_collect_first(inner, bracket_token(closer(list)), tokens(rest));
        },
    }
}

/// In a calm state, nested items change nothing.
pub proof fn lemma_items_change_nothing(state: Walk, items: Seq<Item>, rest: Seq<char>)
    requires
        items_well_formed(items),
        calm(state, 1),
    ensures
        collect(state, tokens(render_items(items) + rest)) == collect(state, tokens(rest)),
    decreases items,
{
    if items.len() == 0 {
        assert(render_items(items) + rest =~= rest);
    } else {
        let first = items[0];
        let behind = render_items(items.drop_first()) + rest;
        assert(render_items(items) + rest =~= first.node.render() + (first.tail + behind));
        lemma_node_changes_nothing(state, first.node, first.tail + behind);
        lemma_tokens_skip_filler(first.tail, behind);
        lemma_items_change_nothing(state, items.drop_first(), rest);
    }
}

/// The walker in the root object, in front of the key `packages`.
pub open spec fn in_root() -> Walk {
    Walk {
        depth: 1,
        at_root_object: true,
        in_target_array: false,
        in_array_item: false,
        awaiting_value: false,
    }
}

/// The walker in the array of packages, between two packages.
pub open spec fn in_array() -> Walk {
    Walk {
        depth: 2,
        at_root_object: true,
        in_target_array: true,
        in_array_item: false,
        awaiting_value: false,
    }
}

/// The walker in a package, between two members.
pub open spec fn in_package() -> Walk {
    Walk {
        depth: 3,
        at_root_object: true,
        in_target_array: true,
        in_array_item: true,
        awaiting_value: false,
    }
}

/// The text behind a member's value does not start with a colon, if what
/// follows the member does not.
proof fn lemma_no_colon_behind_value(m: Member, rest: Seq<char>)
    requires
        m.well_formed(),
        m.value matches Some(node) && node is Literal,
        !starts_with_colon(rest),
    ensures
        !starts_with_colon(m.tail + rest),
{
    if m.tail.len() > 0 {
        assert((m.tail + rest)[0] == m.tail[0]);
    } else {
        assert(m.tail + rest =~= rest);
    }
}

/// The value of a member changes nothing where it is not awaited: in the root
/// object in front of `packages`, and in a package.
proof fn lemma_value_changes_nothing(state: Walk, m: Member, rest: Seq<char>)
    requires
        m.well_formed(),
        !starts_with_colon(rest),
        state == in_root() || state == in_package(),
    ensures
        collect(state, tokens(m.render_value() + (m.tail + rest))) == collect(state, tokens(rest)),
{
    let behind = m.tail + rest;
    match m.value {
        None => {
            assert(m.render_value() + behind =~= behind);
        },
        Some(Node::Literal(text)) => {
            lemma_no_colon_behind_value(m, rest);
            lemma_tokens_literal(text, behind);
            lemma_collect_first(state, Token::Str(text), tokens(behind));
        },
        Some(node) => {
            lemma_node_changes_nothing(state, node, behind);
        },
    }
    lemma_tokens_skip_filler(m.tail, rest);
}

/// A member of the root object that is not `packages` changes nothing.
pub proof fn lemma_root_member(m: Member, rest: Seq<char>)
    requires
        m.well_formed(),
        m.key != "packages"@,
        !starts_with_colon(rest),
    ensures
        collect(in_root(), tokens(m.render() + rest)) == collect(in_root(), tokens(rest)),
{
    let value_on = m.render_value() + (m.tail + rest);
    assert(m.render() + rest =~= quoted(m.key) + (m.sep + value_on));
    lemma_tokens_literal(m.key, m.sep + value_on);
    lemma_collect_first(in_root(), literal_token(m.key, m.sep + value_on), tokens(m.sep + value_on));
    lemma_tokens_skip_filler(m.sep, value_on);
    lemma_value_changes_nothing(in_root(), m, rest);
}

/// The members of the root object in front of `packages` change nothing.
pub proof fn lemma_root_members(members: Seq<Member>, rest: Seq<char>)
    requires
        forall|i: int|
            0 <= i < members.len() ==> (#[trigger] members[i]).well_formed() && members[i].key
                != "packages"@,
        !starts_with_colon(rest),
    ensures
        collect(in_root(), tokens(render_members(members) + rest)) == collect(
            in_root(),
            tokens(rest),
        ),
    decreases members.len(),
{
    if members.len() == 0 {
        assert(render_members(members) + rest =~= rest);
    } else {
        let more = members.drop_first();
        let behind = render_members(more) + rest;
        assert(members[0].well_formed());
        assert forall|i: int| 0 <= i < more.len() implies (#[trigger] more[i]).well_formed()
            && more[i].key != "packages"@ by {
            assert(more[i] == members[i + 1]);
        }
        lemma_members_start(more, rest);
        assert(render_members(members) + rest =~= members[0].render() + behind);
        lemma_root_member(members[0], behind);
        lemma_root_members(more, rest);
    }
}

/// A row of members starts with a quote, or is empty.
proof fn lemma_members_start(members: Seq<Member>, rest: Seq<char>)
    requires
        !starts_with_colon(rest),
    ensures
        !starts_with_colon(render_members(members) + rest),
{
    if members.len() == 0 {
        assert(render_members(members) + rest =~= rest);
    } else {
        let text = render_members(members) + rest;
        assert(quoted(members[0].key)[0] == '"');
        assert(text[0] == '"');
    }
}

/// A member of a package gives the path it names, and leaves the walker
/// where it was.
pub proof fn lemma_package_member(m: Member, rest: Seq<char>)
    requires
        m.well_formed(),
        m.fits_package(),
        !starts_with_colon(rest),
    ensures
        collect(in_package(), tokens(m.render() + rest)) == m.paths() + collect(
            in_package(),
            tokens(rest),
        ),
{
    let behind = m.tail + rest;
    let value_on = m.render_value() + behind;
    assert(m.render() + rest =~= quoted(m.key) + (m.sep + value_on));
    lemma_tokens_literal(m.key, m.sep + value_on);
    lemma_collect_first(
        in_package(),
        literal_token(m.key, m.sep + value_on),
        tokens(m.sep + value_on),
    );
    lemma_tokens_skip_filler(m.sep, value_on);
    if m.key == "manifest_path"@ {
        assert((m.sep + value_on)[0] == m.sep[0]);
        let waiting = Walk { awaiting_value: true, ..in_package() };
        let text = m.value->0->Literal_0;
        lemma_no_colon_behind_value(m, rest);
        lemma_tokens_literal(text, behind);
        lemma_collect_first(waiting, Token::Str(text), tokens(behind));
        lemma_tokens_skip_filler(m.tail, rest);
    } else {
        lemma_value_changes_nothing(in_package(), m, rest);
        assert(m.paths() + collect(in_package(), tokens(rest)) =~= collect(
            in_package(),
            tokens(rest),
        ));
    }
}

/// The members of a package give the paths they name, in order.
pub proof fn lemma_package_members(members: Seq<Member>, rest: Seq<char>)
    requires
        forall|i: int|
            0 <= i < members.len() ==> (#[trigger] members[i]).well_formed()
                && members[i].fits_package(),
        !starts_with_colon(rest),
    ensures
        collect(in_package(), tokens(render_members(members) + rest)) == members_paths(members)
            + collect(in_package(), tokens(rest)),
    decreases members.len(),
{
    let after = collect(in_package(), tokens(rest));
    if members.len() == 0 {
        assert(render_members(members) + rest =~= rest);
        assert(members_paths(members) + after =~= after);
    } else {
        let more = members.drop_first();
        let behind = render_members(more) + rest;
        assert(members[0].well_formed());
        assert forall|i: int| 0 <= i < more.len() implies (#[trigger] more[i]).well_formed()
            && more[i].fits_package() by {
            assert(more[i] == members[i + 1]);
        }
        lemma_members_start(more, rest);
        assert(render_members(members) + rest =~= members[0].render() + behind);
        lemma_package_member(members[0], behind);
        lemma_package_members(more, rest);
        assert(members[0].paths() + (members_paths(more) + after) =~= members_paths(members)
            + after);
    }
}

/// A package gives the paths that its members name, and leaves the walker in
/// the array.
pub proof fn lemma_package(package: Package, rest: Seq<char>)
    requires
        package.well_formed(),
    ensures
        collect(in_array(), tokens(package.render() + rest)) == members_paths(package.members)
            + collect(in_array(), tokens(rest)),
{
    let behind = seq!['}'] + (package.tail + rest);
    let inside = render_members(package.members) + behind;
    assert(package.render() + rest =~= seq!['{'] + (package.lead + inside));
    lemma_tokens_bracket('{', package.lead + inside);
    lemma_collect_first(in_array(), Token::EnterObj, tokens(package.lead + inside));
    lemma_tokens_skip_filler(package.lead, inside);
    assert(behind[0] == '}');
    lemma_package_members(package.members, behind);
    lemma_tokens_bracket('}', package.tail + rest);
    lemma_collect_first(in_package(), Token::ExitObj, tokens(package.tail + rest));
    lemma_tokens_skip_filler(package.tail, rest);
}

/// A row of packages gives the paths of each, in order.
pub proof fn lemma_packages(packages: Seq<Package>, rest: Seq<char>)
    requires
        forall|i: int| 0 <= i < packages.len() ==> (#[trigger] packages[i]).well_formed(),
    ensures
        collect(in_array(), tokens(render_packages(packages) + rest)) == packages_paths(packages)
            + collect(in_array(), tokens(rest)),
    decreases packages.len(),
{
    let after = collect(in_array(), tokens(rest));
    if packages.len() == 0 {
        assert(render_packages(packages) + rest =~= rest);
        assert(packages_paths(packages) + after =~= after);
    } else {
        let more = packages.drop_first();
        let behind = render_packages(more) + rest;
        assert(packages[0].well_formed());
        assert forall|i: int| 0 <= i < more.len() implies (#[trigger] more[i]).well_formed() by {
            assert(more[i] == packages[i + 1]);
        }
        assert(render_packages(packages) + rest =~= packages[0].render() + behind);
        lemma_package(packages[0], behind);
        lemma_packages(more, rest);
        assert(members_paths(packages[0].members) + (packages_paths(more) + after)
            =~= packages_paths(packages) + after);
    }
}

/// For every text of the expected shape, the extraction gives the values of
/// the `manifest_path` keys that stand directly in the elements of the array
/// of packages: all of them, in the order of the text, each as it is written
/// between its quotes.
pub proof fn lemma_document_gives_its_paths(doc: Document)
    requires
        doc.well_formed(),
    ensures
        manifest_paths(doc.render()) == doc.paths(),
{
    let key = "packages"@;
    let closing = seq![']'] + doc.rest;
    let elements = render_packages(doc.packages) + closing;
    let array = seq!['['] + (doc.array_lead + elements);
    let named = quoted(key) + (doc.sep + array);
    let members = render_members(doc.before) + named;
    let root = seq!['{'] + (doc.root_lead + members);
    assert(doc.render() =~= doc.lead + root);
    assert(is_body(key)) by {
        reveal_strlit("packages");
        lemma_plain_text_is_body(key, 0);
    }
    lemma_tokens_skip_filler(doc.lead, root);
    lemma_tokens_bracket('{', doc.root_lead + members);
    lemma_collect_first(Walk::start(), Token::EnterObj, tokens(doc.root_lead + members));
    lemma_tokens_skip_filler(doc.root_lead, members);
    assert(named[0] == '"');
    lemma_root_members(doc.before, named);
    lemma_tokens_literal(key, doc.sep + array);
    assert((doc.sep + array)[0] == doc.sep[0]);
    lemma_collect_first(in_root(), Token::Entry(key), tokens(doc.sep + array));
    let keyed = Walk { in_target_array: true, ..in_root() };
    lemma_tokens_skip_filler(doc.sep, array);
    lemma_tokens_bracket('[', doc.array_lead + elements);
    lemma_collect_first(keyed, Token::EnterList, tokens(doc.array_lead + elements));
    lemma_tokens_skip_filler(doc.array_lead, elements);
    lemma_packages(doc.packages, closing);
    lemma_tokens_bracket(']', doc.rest);
    lemma_collect_first(in_array(), Token::ExitList, tokens(doc.rest));
    assert(packages_paths(doc.packages) + Seq::<Seq<char>>::empty() =~= packages_paths(
        doc.packages,
    ));
}

} // verus!
