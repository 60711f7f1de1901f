//! Which upstream answers a name, and whether its answer becomes a route.
//!
//! The policy is data, handed over the control interface and replaced whole: never edited in place
//! and never merged. An application that can only say "this is the policy now" cannot leave the
//! core holding half of an old one.
//!
//! First match wins, in the order the application gave.
//!
//! Matching is by label, not by text: a suffix rule for `example.com` covers `a.example.com` and
//! does not cover `notexample.com`.

use vstd::hash_map::StringHashMap;
use vstd::hash_set::StringHashSet;
use vstd::prelude::*;
use crate::address::IpAddr;
use crate::text::{between, chars_of, decimal, digits, lower, lower_char, lower_of, same, text_of};

verus! {

/// Why a policy was refused when it was installed.
///
/// Refused at install rather than on the first query it decides: the previous policy is still in
/// place, and a machine answering names by yesterday's rules is a working machine.
#[derive(Debug, PartialEq, Eq)]
pub enum PolicyError {
    /// A rule names a resolver that is not declared.
    UnknownResolver { rule: usize, resolver: String },
    /// A resolver is declared more than once.
    DuplicateResolver(String),
    /// A rule matches an empty name; `any` is what matches everything.
    EmptyMatch(usize),
    /// A DoH resolver needs a url, and this one has none.
    MissingUrl(String),
}

/// A refusal, its names as characters.
pub ghost enum Refusal {
    UnknownResolver { rule: int, resolver: Seq<char> },
    DuplicateResolver(Seq<char>),
    EmptyMatch(int),
    MissingUrl(Seq<char>),
}

impl View for PolicyError {
    type V = Refusal;

    open spec fn view(&self) -> Refusal {
        match *self {
            PolicyError::UnknownResolver { rule, resolver } => Refusal::UnknownResolver {
                rule: rule as int,
                resolver: resolver@,
            },
            PolicyError::DuplicateResolver(id) => Refusal::DuplicateResolver(id@),
            PolicyError::EmptyMatch(rule) => Refusal::EmptyMatch(rule as int),
            PolicyError::MissingUrl(id) => Refusal::MissingUrl(id@),
        }
    }
}

/// What is said about a policy that is refused.
pub open spec fn refusal_text(refusal: Refusal) -> Seq<char> {
    match refusal {
        Refusal::UnknownResolver { rule, resolver } => "rule "@ + digits(rule as nat)
            + " names the resolver `"@ + resolver + "`, which is not declared"@,
        Refusal::DuplicateResolver(id) => "the resolver `"@ + id
            + "` is declared more than once"@,
        Refusal::EmptyMatch(rule) => "rule "@ + digits(rule as nat)
            + " matches an empty name; use `any` to match everything"@,
        Refusal::MissingUrl(id) => "a doh resolver needs a url, and `"@ + id + "` has none"@,
    }
}

impl PolicyError {
    /// What is said about it.
    pub fn text(&self) -> (text: String)
        ensures
            text@ == refusal_text(self@),
    {
        match self {
            PolicyError::UnknownResolver { rule, resolver } => {
                let rule = decimal(*rule as u128);
                let start = between("rule ", rule.as_str(), " names the resolver `");
                between(start.as_str(), resolver.as_str(), "`, which is not declared")
            },
            PolicyError::DuplicateResolver(id) => between(
                "the resolver `",
                id.as_str(),
                "` is declared more than once",
            ),
            PolicyError::EmptyMatch(rule) => {
                let rule = decimal(*rule as u128);
                between(
                    "rule ",
                    rule.as_str(),
                    " matches an empty name; use `any` to match everything",
                )
            },
            PolicyError::MissingUrl(id) => between(
                "a doh resolver needs a url, and `",
                id.as_str(),
                "` has none",
            ),
        }
    }
}

/// How an upstream is spoken to.
#[derive(Debug, Clone, Copy, PartialEq, Eq, Structural)]
pub enum Kind {
    /// DNS over HTTPS. What a filtered line cannot read and cannot forge an answer into.
    Doh,
    /// DNS over UDP, with TCP as the fallback the protocol requires.
    Plain,
}

/// Which side of the tunnel an upstream is reached from.
///
/// The difference it makes is where the resolver sees the question come from: a resolver reached
/// `Tunnel` sees the exit's location, one reached `Direct` sees the line's.
#[derive(Debug, Clone, Copy, PartialEq, Eq, Structural)]
pub enum Via {
    Tunnel,
    Direct,
}

/// One upstream, as the application declares it.
#[derive(Debug)]
pub struct Resolver {
    pub id: String,
    pub kind: Kind,
    /// Always an address, never a name: a resolver that had to be resolved first is a resolver that
    /// cannot answer the first question of a session.
    pub address: IpAddr,
    /// The endpoint for `Doh`. The name in it is what the certificate is checked against, so it is
    /// carried even though the address above is what is dialled.
    pub url: Option<String>,
    pub via: Via,
}

/// What a rule matches.
#[derive(Debug, PartialEq, Eq)]
pub enum Match {
    /// This name and nothing else.
    Exact(String),
    /// This name, and anything under it at a label boundary.
    Suffix(String),
    /// Everything. Only useful as the last rule, and that is where an application puts it.
    Any,
}

/// What a rule matches, its name as characters.
pub ghost enum Pattern {
    Exact(Seq<char>),
    Suffix(Seq<char>),
    Any,
}

impl View for Match {
    type V = Pattern;

    open spec fn view(&self) -> Pattern {
        match *self {
            Match::Exact(name) => Pattern::Exact(name@),
            Match::Suffix(name) => Pattern::Suffix(name@),
            Match::Any => Pattern::Any,
        }
    }
}

/// Who asked, when that is known.
///
/// Both forms are carried because an application writes whichever it has: a list of base programs
/// is written as file names, and a program the user picked is written as the path they picked.
#[derive(Debug, Clone, Copy, PartialEq, Eq)]
pub struct Asker<'a> {
    /// The executable's full path, lowercase.
    pub path: &'a str,
    /// Its file name alone, lowercase.
    pub name: &'a str,
}

/// One rule, as the application writes it.
#[derive(Debug)]
pub struct Rule {
    pub matcher: Match,
    pub resolver: String,
    /// Programs this rule applies to, by file name or by full path. Empty means every program.
    ///
    /// A rule can therefore be about who is asking as well as about what is asked, which is how a
    /// program is carried without the tunnel seeing processes: the answer to its question becomes a
    /// route and its traffic follows.
    pub programs: Vec<String>,
    /// Whether the addresses in the answer are routed into the tunnel.
    ///
    /// Separate from the resolver on purpose. "Ask through the tunnel" and "send the traffic through
    /// the tunnel" are different questions.
    pub route: bool,
}

/// A rule as plain values.
#[verifier::ext_equal]
pub ghost struct Line {
    pub matcher: Pattern,
    pub resolver: Seq<char>,
    pub programs: Seq<Seq<char>>,
    pub route: bool,
}

impl View for Rule {
    type V = Line;

    open spec fn view(&self) -> Line {
        Line {
            matcher: self.matcher@,
            resolver: self.resolver@,
            programs: names_of(self.programs@),
            route: self.route,
        }
    }
}

/// Texts as characters.
pub open spec fn names_of(names: Seq<String>) -> Seq<Seq<char>> {
    names.map_values(|name: String| name@)
}

/// The policy as it arrives over the control interface.
#[derive(Debug)]
pub struct PolicyInput {
    pub resolvers: Vec<Resolver>,
    pub rules: Vec<Rule>,
}

/// What a name resolved to in policy terms.
#[derive(Debug, Clone, Copy)]
pub struct Decision<'a> {
    pub resolver: &'a Resolver,
    pub route: bool,
    /// Which rule decided, so a log line can say why rather than only what.
    pub rule: usize,
}

/// A checked policy, arranged so that a lookup costs a handful of hash lookups rather than a walk
/// over every rule.
pub struct Policy {
    resolvers: Vec<Resolver>,
    /// id → where the resolver stands.
    by_id: StringHashMap<usize>,
    rules: Vec<Rule>,
    /// name → every exact rule for it.
    ///
    /// Every rule and not just the first, because a rule may also require a particular program to be
    /// the one asking, and then the first rule for a name is not always the one that applies.
    exact: StringHashMap<Vec<usize>>,
    /// name → every suffix rule for it.
    suffix: StringHashMap<Vec<usize>>,
    /// Every rule that matches any name.
    any: Vec<usize>,
}

/// A name without the dots it ends in.
pub open spec fn undotted(name: Seq<char>) -> Seq<char>
    decreases name.len(),
{
    if name.len() > 0 && name.last() == '.' {
        undotted(name.drop_last())
    } else {
        name
    }
}

/// A name as it is compared: lowercase, no trailing dot.
pub open spec fn normal(name: Seq<char>) -> Seq<char> {
    lower(undotted(name))
}

/// A character of a program's path as it is compared.
pub open spec fn path_char(c: char) -> char {
    if c == '/' {
        '\\'
    } else {
        lower_char(c)
    }
}

/// A program as it is compared: lowercase, one kind of separator.
pub open spec fn path_text(program: Seq<char>) -> Seq<char> {
    program.map_values(|c: char| path_char(c))
}

/// A pattern with its name as it is compared.
pub open spec fn normal_pattern(pattern: Pattern) -> Pattern {
    match pattern {
        Pattern::Exact(name) => Pattern::Exact(normal(name)),
        Pattern::Suffix(name) => Pattern::Suffix(normal(name)),
        Pattern::Any => Pattern::Any,
    }
}

/// A rule with everything in it as it is compared.
pub open spec fn normal_line(line: Line) -> Line {
    Line {
        matcher: normal_pattern(line.matcher),
        resolver: line.resolver,
        programs: line.programs.map_values(|program: Seq<char>| path_text(program)),
        route: line.route,
    }
}

/// Rules with everything in them as it is compared.
pub open spec fn normal_lines(rules: Seq<Rule>) -> Seq<Line> {
    rules.map_values(|rule: Rule| normal_line(rule@))
}

/// Whether a pattern matches nothing for want of a name.
pub open spec fn is_empty_match(pattern: Pattern) -> bool {
    match pattern {
        Pattern::Exact(name) => name.len() == 0,
        Pattern::Suffix(name) => name.len() == 0,
        Pattern::Any => false,
    }
}

/// Whether a name is a suffix, or stands under it at a label boundary.
pub open spec fn covers(suffix: Seq<char>, name: Seq<char>) -> bool {
    let before = name.len() - suffix.len();
    ||| name == suffix
    ||| before > 0 && name[before - 1] == '.' && name.skip(before) == suffix
}

/// Whether a pattern matches a name.
pub open spec fn matches_name(pattern: Pattern, name: Seq<char>) -> bool {
    match pattern {
        Pattern::Exact(exact) => exact == name,
        Pattern::Suffix(suffix) => covers(suffix, name),
        Pattern::Any => true,
    }
}

/// An asker as plain values: path and file name.
pub open spec fn who(asker: Option<Asker>) -> Option<(Seq<char>, Seq<char>)> {
    match asker {
        Some(asker) => Some((asker.path@, asker.name@)),
        None => None,
    }
}

/// Whether a rule's program list admits whoever is asking.
pub open spec fn admits(programs: Seq<Seq<char>>, asker: Option<(Seq<char>, Seq<char>)>) -> bool {
    programs.len() == 0 || match asker {
        Some((path, name)) => programs.contains(path) || programs.contains(name),
        None => false,
    }
}

/// Whether a rule decides a name for an asker, were it reached.
pub open spec fn decides(
    line: Line,
    name: Seq<char>,
    asker: Option<(Seq<char>, Seq<char>)>,
) -> bool {
    matches_name(line.matcher, name) && admits(line.programs, asker)
}

/// The first rule, from the `from`th on, that decides a name.
pub open spec fn first_match(
    lines: Seq<Line>,
    from: int,
    name: Seq<char>,
    asker: Option<(Seq<char>, Seq<char>)>,
) -> Option<int>
    decreases lines.len() - from,
{
    if !(0 <= from < lines.len()) {
        None
    } else if decides(lines[from], name, asker) {
        Some(from)
    } else {
        first_match(lines, from + 1, name, asker)
    }
}

/// Whether one of the first `count` resolvers is declared under an id.
pub open spec fn is_declared(resolvers: Seq<Resolver>, count: int, id: Seq<char>) -> bool {
    exists|k: int| 0 <= k < count && (#[trigger] resolvers[k]).id@ == id
}

/// The first thing wrong with the resolvers from the `from`th on.
pub open spec fn resolver_refusal(resolvers: Seq<Resolver>, from: int) -> Option<Refusal>
    decreases resolvers.len() - from,
{
    if !(0 <= from < resolvers.len()) {
        None
    } else if resolvers[from].kind == Kind::Doh && resolvers[from].url is None {
        Some(Refusal::MissingUrl(resolvers[from].id@))
    } else if is_declared(resolvers, from, resolvers[from].id@) {
        Some(Refusal::DuplicateResolver(resolvers[from].id@))
    } else {
        resolver_refusal(resolvers, from + 1)
    }
}

/// The first thing wrong with the rules from the `from`th on.
pub open spec fn rule_refusal(
    resolvers: Seq<Resolver>,
    lines: Seq<Line>,
    from: int,
) -> Option<Refusal>
    decreases lines.len() - from,
{
    if !(0 <= from < lines.len()) {
        None
    } else if !is_declared(resolvers, resolvers.len() as int, lines[from].resolver) {
        Some(Refusal::UnknownResolver { rule: from, resolver: lines[from].resolver })
    } else if is_empty_match(lines[from].matcher) {
        Some(Refusal::EmptyMatch(from))
    } else {
        rule_refusal(resolvers, lines, from + 1)
    }
}

/// Why a policy is refused, if it is: the first thing wrong with its resolvers, or with its rules.
pub open spec fn refusal(input: PolicyInput) -> Option<Refusal> {
    match resolver_refusal(input.resolvers@, 0) {
        Some(refusal) => Some(refusal),
        None => rule_refusal(input.resolvers@, normal_lines(input.rules@), 0),
    }
}

/// A program list holds a text.
fn holds(programs: &Vec<String>, text: &str) -> (held: bool)
    ensures
        held == names_of(programs@).contains(text@),
{
    let mut i: usize = 0;
    while i < programs.len()
        invariant
            i <= programs.len(),
            forall|k: int| 0 <= k < i ==> (#[trigger] programs@[k])@ != text@,
        decreases programs.len() - i,
    {
        if same(programs[i].as_str(), text) {
            assert(names_of(programs@)[i as int] == text@);
            return true;
        }
        i += 1;
    }
    assert forall|k: int| 0 <= k < names_of(programs@).len() implies names_of(programs@)[k]
        != text@ by {
        assert(programs@[k]@ != text@);
    }
    false
}

/// Whether a rule's program list admits whoever is asking.
///
/// An empty list is every program. A non-empty one and an unknown asker is not a match: a rule
/// written about particular programs must not apply to a query whose origin could not be
/// established, or it would apply to everything on a machine where the lookup happens to fail.
fn applies_to(programs: &Vec<String>, asker: Option<Asker<'_>>) -> (applies: bool)
    ensures
        applies == admits(names_of(programs@), who(asker)),
{
    if programs.len() == 0 {
        return true;
    }
    match asker {
        None => false,
        Some(asker) => holds(programs, asker.path) || holds(programs, asker.name),
    }
}

/// A name as it is compared: lowercase, no trailing dot.
fn normalise(name: &str) -> (out: String)
    ensures
        out@ == normal(name@),
{
    let chars = chars_of(name);
    let mut end: usize = chars.len();
    assert(name@.take(end as int) =~= name@);
    while end > 0 && chars[end - 1] == '.'
        invariant
            chars@ == name@,
            end <= chars.len(),
            undotted(name@) == undotted(name@.take(end as int)),
        decreases end,
    {
        assert(name@.take(end as int).drop_last() =~= name@.take(end - 1));
        end -= 1;
    }
    assert(undotted(name@) == name@.take(end as int));
    let mut out: Vec<char> = Vec::new();
    let mut i: usize = 0;
    let ghost whole = normal(name@);
    while i < end
        invariant
            chars@ == name@,
            i <= end <= chars.len(),
            whole == lower(name@.take(end as int)),
            out@ == whole.take(i as int),
        decreases end - i,
    {
        out.push(lower_of(chars[i]));
        assert(out@ =~= whole.take(i + 1));
        i += 1;
    }
    assert(out@ =~= whole);
    text_of(out.as_slice())
}

/// A program as it is compared: lowercase, one kind of separator.
fn normal_program(program: &str) -> (out: String)
    ensures
        out@ == path_text(program@),
{
    let chars = chars_of(program);
    let ghost whole = path_text(program@);
    let mut out = String::new();
    let mut i: usize = 0;
    assert(whole.take(0) =~= Seq::<char>::empty());
    while i < chars.len()
        invariant
            chars@ == program@,
            i <= chars.len(),
            whole == path_text(program@),
            out@ == whole.take(i as int),
        decreases chars.len() - i,
    {
        out.push(
            if chars[i] == '/' {
                '\\'
            } else {
                lower_of(chars[i])
            },
        );
        assert(out@ =~= whole.take(i + 1));
        i += 1;
    }
    assert(whole.take(i as int) =~= whole);
    out
}

/// A rule with everything in it as it is compared.
fn normal_rule(rule: &Rule) -> (out: Rule)
    ensures
        out@ == normal_line(rule@),
{
    let mut programs: Vec<String> = Vec::new();
    let mut i: usize = 0;
    let ghost whole = normal_line(rule@).programs;
    while i < rule.programs.len()
        invariant
            i <= rule.programs.len(),
            whole == normal_line(rule@).programs,
            whole.len() == rule.programs.len(),
            names_of(programs@) == whole.take(i as int),
        decreases rule.programs.len() - i,
    {
        let ghost had = programs@;
        let program = normal_program(rule.programs[i].as_str());
        programs.push(program);
        proof {
            assert(rule@.programs[i as int] == rule.programs@[i as int]@);
            assert(whole[i as int] == program@);
            assert(names_of(programs@) =~= names_of(had).push(program@));
            assert(whole.take(i + 1) =~= whole.take(i as int).push(whole[i as int]));
        }
        i += 1;
    }
    assert(whole.take(i as int) =~= whole);
    let matcher = match &rule.matcher {
        Match::Exact(name) => Match::Exact(normalise(name.as_str())),
        Match::Suffix(name) => Match::Suffix(normalise(name.as_str())),
        Match::Any => Match::Any,
    };
    Rule { matcher, resolver: rule.resolver.clone(), programs, route: rule.route }
}

/// The rules an index lists under a name.
spec fn listed(index: Map<Seq<char>, Vec<usize>>, name: Seq<char>, rule: int) -> bool {
    index.contains_key(name) && exists|k: int|
        0 <= k < index[name]@.len() && #[trigger] index[name]@[k] == rule
}

/// List one more rule under a name.
fn list_under(index: &mut StringHashMap<Vec<usize>>, name: &String, rule: usize)
    ensures
        forall|n: Seq<char>, i: int| #[trigger]
            listed(final(index)@, n, i) <==> listed(old(index)@, n, i) || (n == name@ && i == rule),
{
    let ghost before = index@;
    let mut list: Vec<usize> = match index.get(name.as_str()) {
        Some(list) => list.clone(),
        None => Vec::new(),
    };
    let ghost had = list@;
    assert(before.contains_key(name@) ==> had =~= before[name@]@);
    list.push(rule);
    let ghost now = list@;
    index.insert(name.clone(), list);
    assert forall|n: Seq<char>, i: int| #[trigger]
        listed(index@, n, i) == (listed(before, n, i) || (n == name@ && i == rule)) by {
        if n == name@ {
            assert(index@[n]@ == now);
            assert(now == had.push(rule));
            if listed(before, n, i) {
                let k = choose|k: int| 0 <= k < before[n]@.len() && #[trigger] before[n]@[k] == i;
                assert(index@[n]@[k] == i);
            }
            if i == rule {
                assert(index@[n]@[had.len() as int] == i);
            }
            if listed(index@, n, i) {
                let k = choose|k: int| 0 <= k < index@[n]@.len() && #[trigger] index@[n]@[k] == i;
                if k < had.len() {
                    assert(before.contains_key(n));
                    assert(before[n]@[k] == i);
                }
            }
        } else {
            assert(index@.contains_key(n) == before.contains_key(n));
            if index@.contains_key(n) {
                assert(index@[n] == before[n]);
            }
        }
    }
}

/// A name from a dot on: the part behind the `at`th character.
proof fn lemma_covers_by_tail(suffix: Seq<char>, name: Seq<char>)
    requires
        suffix.len() > 0,
    ensures
        covers(suffix, name) <==> name == suffix || exists|k: int|
            0 <= k < name.len() && #[trigger] name[k] == '.' && name.skip(k + 1) == suffix,
{
    let before = name.len() - suffix.len();
    if covers(suffix, name) && name != suffix {
        assert(name[before - 1] == '.' && name.skip(before - 1 + 1) == suffix);
    }
    if exists|k: int|
        0 <= k < name.len() && #[trigger] name[k] == '.' && name.skip(k + 1) == suffix {
        let k = choose|k: int|
            0 <= k < name.len() && #[trigger] name[k] == '.' && name.skip(k + 1) == suffix;
        assert(name.skip(k + 1).len() == name.len() - (k + 1));
        assert(before == k + 1);
    }
}

/// The least rule that decides is the first match.
proof fn lemma_first_match(
    lines: Seq<Line>,
    from: int,
    name: Seq<char>,
    asker: Option<(Seq<char>, Seq<char>)>,
    found: Option<int>,
)
    requires
        0 <= from <= lines.len(),
        match found {
            Some(at) => from <= at < lines.len() && decides(lines[at], name, asker) && forall|i: int|
                from <= i < at ==> !decides(#[trigger] lines[i], name, asker),
            None => forall|i: int|
                from <= i < lines.len() ==> !decides(#[trigger] lines[i], name, asker),
        },
    ensures
        first_match(lines, from, name, asker) == found,
    decreases lines.len() - from,
{
    if from < lines.len() && !decides(lines[from], name, asker) {
        lemma_first_match(lines, from + 1, name, asker, found);
    }
}

impl Policy {
    /// The resolvers, in the order they were declared.
    pub closed spec fn declared(&self) -> Seq<Resolver> {
        self.resolvers@
    }

    /// The rules, in the order they are tried.
    pub closed spec fn lines(&self) -> Seq<Line> {
        self.rules@.map_values(|rule: Rule| rule@)
    }

    /// The arrangement lists each rule where a lookup for it looks, and nothing else.
    spec fn arranged(&self) -> bool {
        let lines = self.lines();
        &&& forall|n: Seq<char>, i: int| #[trigger]
            listed(self.exact@, n, i) <==> 0 <= i < lines.len() && lines[i].matcher
                == Pattern::Exact(n)
        &&& forall|n: Seq<char>, i: int| #[trigger]
            listed(self.suffix@, n, i) <==> 0 <= i < lines.len() && lines[i].matcher
                == Pattern::Suffix(n)
        &&& forall|k: int|
            0 <= k < self.any@.len() ==> (#[trigger] self.any@[k]) < lines.len()
                && lines[self.any@[k] as int].matcher == Pattern::Any
        &&& forall|i: int|
            0 <= i < lines.len() && (#[trigger] lines[i]).matcher == Pattern::Any ==> exists|k: int|
                0 <= k < self.any@.len() && #[trigger] self.any@[k] == i
    }

    /// The resolvers are found by their ids, which are distinct.
    spec fn indexed(&self) -> bool {
        &&& forall|k: int|
            0 <= k < self.resolvers@.len() ==> self.by_id@.contains_key(
                (#[trigger] self.resolvers@[k]).id@,
            ) && self.by_id@[self.resolvers@[k].id@] == k
        &&& forall|id: Seq<char>| #[trigger]
            self.by_id@.contains_key(id) ==> self.by_id@[id] < self.resolvers@.len()
                && self.resolvers@[self.by_id@[id] as int].id@ == id
    }

    /// Every rule names a declared resolver and matches something.
    pub closed spec fn wf(&self) -> bool {
        &&& self.arranged()
        &&& self.indexed()
        &&& forall|i: int|
            0 <= i < self.lines().len() ==> is_declared(
                self.resolvers@,
                self.resolvers@.len() as int,
                (#[trigger] self.lines()[i]).resolver,
            ) && !is_empty_match(self.lines()[i].matcher)
    }

    /// A policy with nothing in it.
    fn empty() -> (policy: Self)
        ensures
            policy.wf(),
            policy.declared() == Seq::<Resolver>::empty(),
            policy.lines() == Seq::<Line>::empty(),
    {
        let policy = Policy {
            resolvers: Vec::new(),
            by_id: StringHashMap::new(),
            rules: Vec::new(),
            exact: StringHashMap::new(),
            suffix: StringHashMap::new(),
            any: Vec::new(),
        };
        assert(policy.lines() =~= Seq::empty());
        policy
    }

    /// Declare a resolver that no other has the id of.
    fn declare(&mut self, resolver: Resolver)
        requires
            old(self).wf(),
            old(self).lines().len() == 0,
            !is_declared(
                old(self).declared(),
                old(self).declared().len() as int,
                resolver.id@,
            ),
        ensures
            final(self).wf(),
            final(self).lines() == old(self).lines(),
            final(self).declared() == old(self).declared().push(resolver),
    {
        let ghost before = *self;
        self.by_id.insert(resolver.id.clone(), self.resolvers.len());
        self.resolvers.push(resolver);
        assert(self.lines() =~= before.lines());
        assert(forall|k: int|
            0 <= k < before.resolvers@.len() ==> (#[trigger] self.resolvers@[k])
                == before.resolvers@[k]);
    }

    /// Where the resolver with an id stands.
    fn find(&self, id: &str) -> (found: Option<usize>)
        requires
            self.wf(),
        ensures
            match found {
                Some(at) => at < self.declared().len() && self.declared()[at as int].id@ == id@,
                None => !is_declared(self.declared(), self.declared().len() as int, id@),
            },
    {
        match self.by_id.get(id) {
            Some(at) => Some(*at),
            None => None,
        }
    }

    /// Put a rule behind the others.
    fn add_rule(&mut self, rule: Rule)
        requires
            old(self).wf(),
            is_declared(
                old(self).declared(),
                old(self).declared().len() as int,
                rule.resolver@,
            ),
            !is_empty_match(rule@.matcher),
        ensures
            final(self).wf(),
            final(self).declared() == old(self).declared(),
            final(self).lines() == old(self).lines().push(rule@),
    {
        let ghost before = *self;
        let index: usize = self.rules.len();
        match &rule.matcher {
            Match::Exact(name) => list_under(&mut self.exact, name, index),
            Match::Suffix(name) => list_under(&mut self.suffix, name, index),
            Match::Any => self.any.push(index),
        }
        let ghost line = rule@;
        self.rules.push(rule);
        proof {
            assert(self.lines() =~= before.lines().push(line));
            let lines = self.lines();
            assert forall|i: int|
                0 <= i < lines.len() && (#[trigger] lines[i]).matcher
                    == Pattern::Any implies exists|k: int|
                0 <= k < self.any@.len() && #[trigger] self.any@[k] == i by {
                if i < index {
                    assert(before.lines()[i].matcher == Pattern::Any);
                    let k = choose|k: int|
                        0 <= k < before.any@.len() && #[trigger] before.any@[k] == i;
                    assert(self.any@[k] == i);
                } else {
                    assert(self.any@[self.any@.len() - 1] == i);
                }
            }
        }
    }

    /// Check a policy and arrange it for lookup.
    ///
    /// Everything that can be wrong is wrong here, once, rather than at a query: a rule naming a
    /// resolver nobody declared is a mistake in the application, and finding it out on the first
    /// query of the day is finding it out in the worst possible place.
    pub fn build(input: PolicyInput) -> (built: Result<Self, PolicyError>)
        ensures
            match built {
                Ok(policy) => {
                    &&& refusal(input) is None
                    &&& policy.wf()
                    &&& policy.declared() == input.resolvers@
                    &&& policy.lines() == normal_lines(input.rules@)
                },
                Err(error) => refusal(input) == Some(error@),
            },
    {
        let ghost resolvers = input.resolvers@;
        let ghost lines = normal_lines(input.rules@);
        let mut policy = Policy::empty();
        let mut waiting = input.resolvers;
        while waiting.len() > 0
            invariant
                policy.wf(),
                policy.lines() == Seq::<Line>::empty(),
                policy.declared() + waiting@ == resolvers,
                resolver_refusal(resolvers, 0) == resolver_refusal(
                    resolvers,
                    policy.declared().len() as int,
                ),
                refusal(input) == match resolver_refusal(resolvers, 0) {
                    Some(refusal) => Some(refusal),
                    None => rule_refusal(resolvers, lines, 0),
                },
            decreases waiting.len(),
        {
            let ghost rest = waiting@;
            let ghost done = policy.declared();
            let resolver = waiting.remove(0);
            assert(resolvers[done.len() as int] == resolver) by {
                assert((done + rest)[done.len() as int] == rest[0]);
            }
            assert(forall|k: int| 0 <= k < done.len() ==> (#[trigger] resolvers[k]) == done[k]) by {
                assert forall|k: int| 0 <= k < done.len() implies (#[trigger] resolvers[k])
                    == done[k] by {
                    assert((done + rest)[k] == done[k]);
                }
            }
            assert(is_declared(resolvers, done.len() as int, resolver.id@) == is_declared(
                done,
                done.len() as int,
                resolver.id@,
            )) by {
                if is_declared(done, done.len() as int, resolver.id@) {
                    let k = choose|k: int|
                        0 <= k < done.len() && (#[trigger] done[k]).id@ == resolver.id@;
                    assert(resolvers[k].id@ == resolver.id@);
                }
            }
            if resolver.kind == Kind::Doh && resolver.url.is_none() {
                return Err(PolicyError::MissingUrl(resolver.id));
            }
            if policy.find(resolver.id.as_str()).is_some() {
                return Err(PolicyError::DuplicateResolver(resolver.id));
            }
            policy.declare(resolver);
            assert(policy.declared() + waiting@ =~= done + rest);
        }
        assert(policy.declared() =~= resolvers);
        let mut index: usize = 0;
        while index < input.rules.len()
            invariant
                policy.wf(),
                policy.declared() == resolvers,
                index <= input.rules.len(),
                lines == normal_lines(input.rules@),
                policy.lines() == lines.take(index as int),
                rule_refusal(resolvers, lines, 0) == rule_refusal(resolvers, lines, index as int),
                refusal(input) == rule_refusal(resolvers, lines, 0),
            decreases input.rules.len() - index,
        {
            let rule = normal_rule(&input.rules[index]);
            assert(lines[index as int] == rule@);
            if policy.find(rule.resolver.as_str()).is_none() {
                return Err(PolicyError::UnknownResolver { rule: index, resolver: rule.resolver });
            }
            let empty = match &rule.matcher {
                Match::Exact(name) => name.as_str().is_empty(),
                Match::Suffix(name) => name.as_str().is_empty(),
                Match::Any => false,
            };
            if empty {
                return Err(PolicyError::EmptyMatch(index));
            }
            policy.add_rule(rule);
            assert(lines.take(index + 1) =~= lines.take(index as int).push(lines[index as int]));
            index += 1;
        }
        assert(lines.take(index as int) =~= lines);
        Ok(policy)
    }

    /// The lowest of `best` and the listed rules that admit whoever is asking.
    fn earliest(
        &self,
        list: &Vec<usize>,
        asker: Option<Asker<'_>>,
        best: Option<usize>,
    ) -> (found: Option<usize>)
        requires
            forall|k: int| 0 <= k < list@.len() ==> (#[trigger] list@[k]) < self.lines().len(),
        ensures
            forall|k: int|
                0 <= k < list@.len() && admits(
                    self.lines()[#[trigger] list@[k] as int].programs,
                    who(asker),
                ) ==> found is Some && found->0 <= list@[k],
            best is Some ==> found is Some && found->0 <= best->0,
            found == best || exists|k: int|
                0 <= k < list@.len() && Some(#[trigger] list@[k]) == found && admits(
                    self.lines()[list@[k] as int].programs,
                    who(asker),
                ),
    {
        let mut found = best;
        let mut k: usize = 0;
        while k < list.len()
            invariant
                k <= list.len(),
                forall|j: int| 0 <= j < list@.len() ==> (#[trigger] list@[j]) < self.lines().len(),
                forall|j: int|
                    0 <= j < k && admits(
                        self.lines()[#[trigger] list@[j] as int].programs,
                        who(asker),
                    ) ==> found is Some && found->0 <= list@[j],
                best is Some ==> found is Some && found->0 <= best->0,
                found == best || exists|j: int|
                    0 <= j < list@.len() && Some(#[trigger] list@[j]) == found && admits(
                        self.lines()[list@[j] as int].programs,
                        who(asker),
                    ),
            decreases list.len() - k,
        {
            let index: usize = list[k];
            let lower = match found {
                Some(at) => index < at,
                None => true,
            };
            assert(self.lines()[index as int] == self.rules@[index as int]@);
            if lower && applies_to(&self.rules[index].programs, asker) {
                found = Some(index);
                assert(Some(list@[k as int]) == found);
            }
            k += 1;
        }
        found
    }

    /// The earliest rule listed under a name, against one already found.
    fn earliest_under(
        &self,
        index: &StringHashMap<Vec<usize>>,
        name: &str,
        asker: Option<Asker<'_>>,
        best: Option<usize>,
    ) -> (found: Option<usize>)
        requires
            forall|i: int| #[trigger]
                listed(index@, name@, i) ==> 0 <= i < self.lines().len(),
        ensures
            forall|i: int| #[trigger]
                listed(index@, name@, i) && admits(self.lines()[i].programs, who(asker)) ==> found
                    is Some && found->0 <= i,
            best is Some ==> found is Some && found->0 <= best->0,
            found == best || (listed(index@, name@, found->0 as int) && found is Some && admits(
                self.lines()[found->0 as int].programs,
                who(asker),
            )),
    {
        match index.get(name) {
            None => best,
            Some(list) => {
                assert forall|k: int| 0 <= k < list@.len() implies (#[trigger] list@[k])
                    < self.lines().len() by {
                    assert(index@[name@]@[k] == list@[k]);
                    assert(listed(index@, name@, list@[k] as int));
                }
                let found = self.earliest(list, asker, best);
                proof {
                    assert(index@[name@] == *list);
                    if found != best {
                        let k = choose|k: int|
                            0 <= k < list@.len() && Some(#[trigger] list@[k]) == found && admits(
                                self.lines()[list@[k] as int].programs,
                                who(asker),
                            );
                        assert(index@[name@]@[k] == found->0);
                        assert(listed(index@, name@, found->0 as int));
                    }
                    assert forall|i: int| #[trigger]
                        listed(index@, name@, i) && admits(
                            self.lines()[i].programs,
                            who(asker),
                        ) implies found is Some && found->0 <= i by {
                        let k = choose|k: int|
                            0 <= k < index@[name@]@.len() && #[trigger] index@[name@]@[k] == i;
                        assert(list@[k] == i);
                    }
                }
                found
            },
        }
    }

    /// The earliest suffix rule that covers a name, against one already found: the name itself is
    /// looked up, and what stands behind each of its dots.
    fn earliest_suffix(&self, name: &str, asker: Option<Asker<'_>>, best: Option<usize>) -> (found:
        Option<usize>)
        requires
            self.wf(),
        ensures
            forall|i: int|
                0 <= i < self.lines().len() && (#[trigger] self.lines()[i]).matcher is Suffix
                    && decides(self.lines()[i], name@, who(asker)) ==> found is Some && found->0
                    <= i,
            best is Some ==> found is Some && found->0 <= best->0,
            found == best || (found is Some && found->0 < self.lines().len() && decides(
                self.lines()[found->0 as int],
                name@,
                who(asker),
            )),
    {
        let chars = chars_of(name);
        let mut found = self.earliest_under(&self.suffix, name, asker, best);
        let mut at: usize = 0;
        let ghost lines = self.lines();
        while at < chars.len()
            invariant
                self.wf(),
                lines == self.lines(),
                chars@ == name@,
                at <= chars.len(),
                best is Some ==> found is Some && found->0 <= best->0,
                forall|i: int| #[trigger]
                    listed(self.suffix@, name@, i) && admits(lines[i].programs, who(asker))
                        ==> found is Some && found->0 <= i,
                forall|k: int, i: int|
                    0 <= k < at && name@[k] == '.' && #[trigger] listed(
                        self.suffix@,
                        name@.skip(k + 1),
                        i,
                    ) && admits(lines[i].programs, who(asker)) ==> found is Some && found->0 <= i,
                found == best || (found is Some && found->0 < lines.len() && decides(
                    lines[found->0 as int],
                    name@,
                    who(asker),
                )),
            decreases chars.len() - at,
        {
            if chars[at] == '.' {
                let tail = text_of(vstd::slice::slice_subrange(chars.as_slice(), at + 1, chars.len()));
                assert(tail@ =~= name@.skip(at + 1));
                let ghost was = found;
                found = self.earliest_under(&self.suffix, tail.as_str(), asker, found);
                proof {
                    if found != was {
                        let i = found->0 as int;
                        assert(listed(self.suffix@, name@.skip(at + 1), i));
                        assert(!is_empty_match(lines[i].matcher));
                        assert(name@[at as int] == '.');
                        lemma_covers_by_tail(name@.skip(at + 1), name@);
                    }
                }
            }
            at += 1;
        }
        proof {
            assert forall|i: int|
                0 <= i < lines.len() && (#[trigger] lines[i]).matcher is Suffix && decides(
                    lines[i],
                    name@,
                    who(asker),
                ) implies found is Some && found->0 <= i by {
                let suffix = lines[i].matcher->Suffix_0;
                assert(!is_empty_match(lines[i].matcher));
                assert(listed(self.suffix@, suffix, i));
                lemma_covers_by_tail(suffix, name@);
            }
        }
        found
    }

    /// The rule that decides this name, or `None` when no rule matches.
    ///
    /// Every candidate is found and the lowest-numbered one wins, so the answer is exactly what
    /// walking the list in order would have given. The arrangement is an optimisation and never a
    /// change of meaning: a suffix rule that appears after a more specific one does not overtake it
    /// just because it is more specific.
    pub fn decide<'a>(&'a self, name: &str, asker: Option<Asker<'_>>) -> (decision: Option<
        Decision<'a>,
    >)
        requires
            self.wf(),
        ensures
            match decision {
                Some(decision) => {
                    let line = self.lines()[decision.rule as int];
                    &&& first_match(self.lines(), 0, name@, who(asker)) == Some(
                        decision.rule as int,
                    )
                    &&& decision.rule < self.lines().len()
                    &&& decision.route == line.route
                    &&& decision.resolver.id@ == line.resolver
                    &&& self.declared().contains(*decision.resolver)
                },
                None => first_match(self.lines(), 0, name@, who(asker)) is None,
            },
    {
        let ghost lines = self.lines();
        let by_name = self.earliest_under(&self.exact, name, asker, None);
        proof {
            if by_name is Some {
                assert(decides(lines[by_name->0 as int], name@, who(asker)));
            }
        }
        let by_suffix = self.earliest_suffix(name, asker, by_name);
        let found = self.earliest(&self.any, asker, by_suffix);
        proof {
            if found is Some && found != by_suffix {
                let k = choose|k: int|
                    0 <= k < self.any@.len() && Some(#[trigger] self.any@[k]) == found && admits(
                        lines[self.any@[k] as int].programs,
                        who(asker),
                    );
                assert(decides(lines[self.any@[k] as int], name@, who(asker)));
            }
            assert forall|i: int|
                0 <= i < lines.len() && decides(#[trigger] lines[i], name@, who(asker)) implies found
                is Some && found->0 <= i by {
                match lines[i].matcher {
                    Pattern::Exact(exact) => {
                        assert(listed(self.exact@, name@, i));
                    },
                    Pattern::Suffix(_) => {},
                    Pattern::Any => {
                        let k = choose|k: int|
                            0 <= k < self.any@.len() && #[trigger] self.any@[k] == i;
                        assert(self.any@[k] == i);
                    },
                }
            }
            lemma_first_match(
                lines,
                0,
                name@,
                who(asker),
                match found {
                    Some(at) => Some(at as int),
                    None => None,
                },
            );
        }
        let index = match found {
            Some(index) => index,
            None => return None,
        };
        let rule = &self.rules[index];
        assert(lines[index as int] == rule@);
        let ghost id = rule.resolver@;
        assert(is_declared(self.resolvers@, self.resolvers@.len() as int, id));
        match self.find(rule.resolver.as_str()) {
            Some(at) => {
                assert(self.declared()[at as int] == self.resolvers@[at as int]);
                Some(Decision { resolver: &self.resolvers[at], route: rule.route, rule: index })
            },
            None => None,
        }
    }

    /// Every declared resolver that has to be reachable through the tunnel, so that the routing for
    /// them can be pinned before the first query needs one.
    pub fn tunnelled_resolvers(&self) -> (addresses: Vec<IpAddr>)
        ensures
            addresses@ == tunnelled(self.declared()),
    {
        let mut addresses: Vec<IpAddr> = Vec::new();
        let mut i: usize = 0;
        while i < self.resolvers.len()
            invariant
                i <= self.resolvers.len(),
                addresses@ == tunnelled(self.resolvers@.take(i as int)),
            decreases self.resolvers.len() - i,
        {
            assert(self.resolvers@.take(i + 1).drop_last() =~= self.resolvers@.take(i as int));
            if self.resolvers[i].via == Via::Tunnel {
                addresses.push(self.resolvers[i].address);
            }
            i += 1;
        }
        assert(self.resolvers@.take(i as int) =~= self.resolvers@);
        addresses
    }

    /// Every declared resolver, so that a client can be prepared for each.
    pub fn resolvers(&self) -> (resolvers: &Vec<Resolver>)
        ensures
            resolvers@ == self.declared(),
    {
        &self.resolvers
    }

    /// Whether every name has an answer here.
    ///
    /// Only a catch-all can promise that, and a policy without one leaves names this core would
    /// refuse, with no second resolver for the machine to ask, because it is the only one. A rule
    /// about particular programs decides nothing about the rest, so only an unconditional catch-all
    /// counts as covering every name.
    pub fn decides_everything(&self) -> (all: bool)
        requires
            self.wf(),
        ensures
            all == has_catch_all(self.lines()),
    {
        let ghost lines = self.lines();
        let mut k: usize = 0;
        while k < self.any.len()
            invariant
                self.wf(),
                lines == self.lines(),
                k <= self.any.len(),
                forall|j: int|
                    0 <= j < k ==> lines[#[trigger] self.any@[j] as int].programs.len() > 0,
            decreases self.any.len() - k,
        {
            let index: usize = self.any[k];
            assert(index < lines.len() && lines[index as int].matcher == Pattern::Any);
            assert(lines[index as int] == self.rules@[index as int]@);
            if self.rules[index].programs.len() == 0 {
                return true;
            }
            k += 1;
        }
        assert forall|i: int| 0 <= i < lines.len() implies !((#[trigger] lines[i]).matcher
            == Pattern::Any && lines[i].programs.len() == 0) by {
            if lines[i].matcher == Pattern::Any {
                let j = choose|j: int| 0 <= j < self.any@.len() && #[trigger] self.any@[j] == i;
                assert(lines[self.any@[j] as int].programs.len() > 0);
            }
        }
        false
    }

    /// How many rules this policy carries, for the caller that reports what it installed.
    pub fn rule_count(&self) -> (count: usize)
        ensures
            count == self.lines().len(),
    {
        self.rules.len()
    }

    /// How many upstreams the rules between them name.
    pub fn resolver_count(&self) -> (count: usize)
        ensures
            count == named(self.lines()).len(),
    {
        let ghost ids = resolver_ids(self.lines());
        let mut seen = StringHashSet::new();
        let mut i: usize = 0;
        assert(ids.take(0).to_set() =~= Set::<Seq<char>>::empty());
        while i < self.rules.len()
            invariant
                i <= self.rules.len(),
                ids == resolver_ids(self.lines()),
                seen@ == ids.take(i as int).to_set(),
            decreases self.rules.len() - i,
        {
            proof {
                ids.take(i as int).lemma_push_to_set_commute(ids[i as int]);
                assert(ids.take(i + 1) =~= ids.take(i as int).push(ids[i as int]));
            }
            seen.insert(self.rules[i].resolver.clone());
            i += 1;
        }
        assert(ids.take(i as int) =~= ids);
        seen.len()
    }
}

impl Default for Policy {
    fn default() -> (policy: Self)
        ensures
            policy.wf(),
            policy.declared() == Seq::<Resolver>::empty(),
            policy.lines() == Seq::<Line>::empty(),
    {
        Policy::empty()
    }
}

/// The addresses of the resolvers reached through the tunnel, in the order they were declared.
pub open spec fn tunnelled(resolvers: Seq<Resolver>) -> Seq<IpAddr>
    decreases resolvers.len(),
{
    if resolvers.len() == 0 {
        Seq::empty()
    } else if resolvers.last().via == Via::Tunnel {
        tunnelled(resolvers.drop_last()).push(resolvers.last().address)
    } else {
        tunnelled(resolvers.drop_last())
    }
}

/// The upstream each rule names, in the order of the rules.
pub open spec fn resolver_ids(lines: Seq<Line>) -> Seq<Seq<char>> {
    lines.map_values(|line: Line| line.resolver)
}

/// The upstreams the rules between them name: each once, however many rules name it.
pub open spec fn named(lines: Seq<Line>) -> Set<Seq<char>> {
    resolver_ids(lines).to_set()
}

/// Whether a rule matches every name for every program.
pub open spec fn has_catch_all(lines: Seq<Line>) -> bool {
    exists|i: int|
        0 <= i < lines.len() && (#[trigger] lines[i]).matcher == Pattern::Any
            && lines[i].programs.len() == 0
}

/// A suffix covers itself and whatever stands under it at a label boundary, and nothing that merely
/// ends in the same letters.
pub proof fn law_a_suffix_covers_whole_labels(suffix: Seq<char>, before: Seq<char>)
    requires
        suffix.len() > 0,
    ensures
        covers(suffix, suffix),
        covers(suffix, before + seq!['.'] + suffix),
        before.len() > 0 && before.last() != '.' ==> !covers(suffix, before + suffix),
{
    let under = before + seq!['.'] + suffix;
    assert(under.skip((before.len() + 1) as int) =~= suffix);
    let run_on = before + suffix;
    if before.len() > 0 {
        assert(run_on[before.len() - 1] == before.last());
    }
}

/// An exact rule does not reach below its name.
pub proof fn law_an_exact_rule_reaches_one_name(exact: Seq<char>, name: Seq<char>)
    ensures
        matches_name(Pattern::Exact(exact), name) <==> name == exact,
{
}

/// Names are compared without regard to case or to dots at the end.
pub proof fn law_case_and_trailing_dots_make_no_difference(name: Seq<char>)
    ensures
        normal(lower(name)) == normal(name),
        normal(name.push('.')) == normal(name),
        normal(normal(name)) == normal(name),
    decreases name.len(),
{
    assert(name.push('.').drop_last() =~= name);
    lemma_undotted_lower(name);
    lemma_lower_twice(undotted(name));
    lemma_undotted_twice(name);
    lemma_undotted_lower(undotted(name));
}

proof fn lemma_lower_twice(text: Seq<char>)
    ensures
        lower(lower(text)) == lower(text),
{
    assert(lower(lower(text)) =~= lower(text));
}

proof fn lemma_undotted_twice(name: Seq<char>)
    ensures
        undotted(undotted(name)) == undotted(name),
    decreases name.len(),
{
    if name.len() > 0 && name.last() == '.' {
        lemma_undotted_twice(name.drop_last());
    }
}

proof fn lemma_undotted_lower(name: Seq<char>)
    ensures
        undotted(lower(name)) == lower(undotted(name)),
    decreases name.len(),
{
    if name.len() > 0 {
        assert(lower(name).last() == lower_char(name.last()));
        assert((lower(name).last() == '.') == (name.last() == '.'));
        if name.last() == '.' {
            assert(lower(name).drop_last() =~= lower(name.drop_last()));
            lemma_undotted_lower(name.drop_last());
        }
    }
}

/// The rule written first decides: what a list of rules decides, no rule written behind it changes.
pub proof fn law_the_first_matching_rule_decides(
    lines: Seq<Line>,
    later: Seq<Line>,
    name: Seq<char>,
    asker: Option<(Seq<char>, Seq<char>)>,
)
    ensures
        first_match(lines, 0, name, asker) is Some ==> first_match(lines + later, 0, name, asker)
            == first_match(lines, 0, name, asker),
        first_match(lines, 0, name, asker) matches Some(rule) ==> 0 <= rule < lines.len()
            && decides(lines[rule], name, asker) && forall|i: int|
            0 <= i < rule ==> !decides(#[trigger] lines[i], name, asker),
        first_match(lines, 0, name, asker) is None ==> forall|i: int|
            0 <= i < lines.len() ==> !decides(#[trigger] lines[i], name, asker),
{
    lemma_first_match_is_first(lines, later, 0, name, asker);
}

proof fn lemma_first_match_is_first(
    lines: Seq<Line>,
    later: Seq<Line>,
    from: int,
    name: Seq<char>,
    asker: Option<(Seq<char>, Seq<char>)>,
)
    requires
        0 <= from <= lines.len(),
    ensures
        first_match(lines, from, name, asker) is Some ==> first_match(
            lines + later,
            from,
            name,
            asker,
        ) == first_match(lines, from, name, asker),
        first_match(lines, from, name, asker) matches Some(rule) ==> from <= rule < lines.len()
            && decides(lines[rule], name, asker) && forall|i: int|
            from <= i < rule ==> !decides(#[trigger] lines[i], name, asker),
        first_match(lines, from, name, asker) is None ==> forall|i: int|
            from <= i < lines.len() ==> !decides(#[trigger] lines[i], name, asker),
    decreases lines.len() - from,
{
    if from < lines.len() {
        assert((lines + later)[from] == lines[from]);
        lemma_first_match_is_first(lines, later, from + 1, name, asker);
    }
}

/// An asker that could not be established matches no rule that names programs.
pub proof fn law_an_unknown_asker_matches_no_rule_about_programs(line: Line, name: Seq<char>)
    requires
        line.programs.len() > 0,
    ensures
        !decides(line, name, None),
{
}

/// With an unconditional catch-all every name has an answer, whoever asks.
pub proof fn law_a_catch_all_leaves_no_name_undecided(
    lines: Seq<Line>,
    name: Seq<char>,
    asker: Option<(Seq<char>, Seq<char>)>,
)
    requires
        has_catch_all(lines),
    ensures
        first_match(lines, 0, name, asker) is Some,
{
    law_the_first_matching_rule_decides(lines, Seq::empty(), name, asker);
    let i = choose|i: int|
        0 <= i < lines.len() && (#[trigger] lines[i]).matcher == Pattern::Any
            && lines[i].programs.len() == 0;
    assert(decides(lines[i], name, asker));
}

/// A rule decides a name for whoever asks where it matches the name and lists no programs, or lists
/// the asker, by path or by file name. One that lists programs decides nothing for an asker that is
/// not among them, nor for one that is not known.
pub proof fn law_a_rule_is_about_a_name_and_who_asks(
    line: Line,
    name: Seq<char>,
    path: Seq<char>,
    file: Seq<char>,
)
    ensures
        line.programs.len() == 0 ==> (decides(line, name, None) <==> matches_name(
            line.matcher,
            name,
        )) && (decides(line, name, Some((path, file))) <==> matches_name(line.matcher, name)),
        line.programs.len() > 0 ==> (decides(line, name, Some((path, file))) <==> matches_name(
            line.matcher,
            name,
        ) && exists|i: int|
            0 <= i < line.programs.len() && (#[trigger] line.programs[i] == path || line.programs[i]
                == file)),
        line.programs.len() > 0 ==> !decides(line, name, None),
        matches_name(Pattern::Any, name),
{
    let programs = line.programs;
    if programs.contains(path) {
        let i = choose|i: int| 0 <= i < programs.len() && programs[i] == path;
        assert(programs[i] == path);
    }
    if programs.contains(file) {
        let i = choose|i: int| 0 <= i < programs.len() && programs[i] == file;
        assert(programs[i] == file);
    }
}

/// A suffix rule matches exactly its name and what is written in front of it behind a dot.
pub proof fn law_a_suffix_rule_matches_what_stands_under_it(suffix: Seq<char>, name: Seq<char>)
    ensures
        matches_name(Pattern::Suffix(suffix), name) <==> name == suffix || exists|
            before: Seq<char>,
        | name == #[trigger] (before + seq!['.']) + suffix,
{
    if covers(suffix, name) && name != suffix {
        let before = name.take(name.len() - suffix.len() - 1);
        assert(name =~= (before + seq!['.']) + suffix);
    }
    if exists|before: Seq<char>| name == #[trigger] (before + seq!['.']) + suffix {
        let before = choose|before: Seq<char>| name == #[trigger] (before + seq!['.']) + suffix;
        assert(name.skip(name.len() - suffix.len()) =~= suffix);
    }
}

/// A policy is refused exactly where something is wrong with it: a DoH resolver without a url, an id
/// that two resolvers have, a rule that names no declared resolver, or one that matches an empty name.
pub proof fn law_a_policy_is_refused_where_something_is_wrong(input: PolicyInput)
    ensures
        ({
            let resolvers = input.resolvers@;
            let lines = normal_lines(input.rules@);
            refusal(input) is None <==> {
                &&& forall|i: int|
                    0 <= i < resolvers.len() && (#[trigger] resolvers[i]).kind == Kind::Doh
                        ==> resolvers[i].url is Some
                &&& forall|i: int, j: int|
                    0 <= i < j < resolvers.len() ==> (#[trigger] resolvers[i]).id@ != (
                    #[trigger] resolvers[j]).id@
                &&& forall|i: int|
                    0 <= i < lines.len() ==> is_declared(
                        resolvers,
                        resolvers.len() as int,
                        (#[trigger] lines[i]).resolver,
                    ) && !is_empty_match(lines[i].matcher)
            }
        }),
{
    let resolvers = input.resolvers@;
    let lines = normal_lines(input.rules@);
    lemma_resolvers_refused(resolvers, 0);
    lemma_rules_refused(resolvers, lines, 0);
}

proof fn lemma_resolvers_refused(resolvers: Seq<Resolver>, from: int)
    requires
        0 <= from <= resolvers.len(),
    ensures
        resolver_refusal(resolvers, from) is None <==> (forall|i: int|
            from <= i < resolvers.len() && (#[trigger] resolvers[i]).kind == Kind::Doh
                ==> resolvers[i].url is Some) && (forall|i: int, j: int|
            0 <= i < j < resolvers.len() && from <= j ==> (#[trigger] resolvers[i]).id@ != (
            #[trigger] resolvers[j]).id@),
    decreases resolvers.len() - from,
{
    if from < resolvers.len() {
        lemma_resolvers_refused(resolvers, from + 1);
        if is_declared(resolvers, from, resolvers[from].id@) {
            let k = choose|k: int| 0 <= k < from && (#[trigger] resolvers[k]).id@
                == resolvers[from].id@;
            assert(resolvers[k].id@ == resolvers[from].id@);
        }
    }
}

proof fn lemma_rules_refused(resolvers: Seq<Resolver>, lines: Seq<Line>, from: int)
    requires
        0 <= from <= lines.len(),
    ensures
        rule_refusal(resolvers, lines, from) is None <==> forall|i: int|
            from <= i < lines.len() ==> is_declared(
                resolvers,
                resolvers.len() as int,
                (#[trigger] lines[i]).resolver,
            ) && !is_empty_match(lines[i].matcher),
    decreases lines.len() - from,
{
    if from < lines.len() {
        lemma_rules_refused(resolvers, lines, from + 1);
    }
}

/// A program is compared letter by letter: `A` to `Z` as `a` to `z`, either separator as the one, and
/// everything else as it is.
pub proof fn law_programs_are_compared_without_case_or_separator(program: Seq<char>, i: int)
    requires
        0 <= i < program.len(),
    ensures
        path_text(program).len() == program.len(),
        program[i] == '/' ==> path_text(program)[i] == '\\',
        'A' <= program[i] <= 'Z' ==> path_text(program)[i] as int == program[i] as int + 32,
        program[i] != '/' && !('A' <= program[i] <= 'Z') ==> path_text(program)[i] == program[i],
{
}

/// The resolvers reached through the tunnel are those declared so, each of them and no other.
pub proof fn law_tunnelled_resolvers_are_those_declared_so(
    resolvers: Seq<Resolver>,
    address: IpAddr,
)
    ensures
        tunnelled(resolvers).contains(address) <==> exists|i: int|
            0 <= i < resolvers.len() && (#[trigger] resolvers[i]).via == Via::Tunnel
                && resolvers[i].address == address,
    decreases resolvers.len(),
{
    if resolvers.len() > 0 {
        let rest = resolvers.drop_last();
        let last = resolvers.len() - 1;
        law_tunnelled_resolvers_are_those_declared_so(rest, address);
        if tunnelled(rest).contains(address) {
            let i = choose|i: int|
                0 <= i < rest.len() && (#[trigger] rest[i]).via == Via::Tunnel && rest[i].address
                    == address;
            assert(resolvers[i] == rest[i]);
            let k = choose|k: int| 0 <= k < tunnelled(rest).len() && tunnelled(rest)[k] == address;
            assert(tunnelled(resolvers)[k] == address);
        }
        if resolvers[last].via == Via::Tunnel && resolvers[last].address == address {
            assert(tunnelled(resolvers)[tunnelled(resolvers).len() - 1] == address);
        }
        if exists|i: int|
            0 <= i < resolvers.len() && (#[trigger] resolvers[i]).via == Via::Tunnel
                && resolvers[i].address == address {
            let i = choose|i: int|
                0 <= i < resolvers.len() && (#[trigger] resolvers[i]).via == Via::Tunnel
                    && resolvers[i].address == address;
            if i < last {
                assert(rest[i] == resolvers[i]);
            }
        }
        if tunnelled(resolvers).contains(address) && !tunnelled(rest).contains(address) {
            let k = choose|k: int| 0 <= k < tunnelled(resolvers).len() && tunnelled(resolvers)[k]
                == address;
            if k < tunnelled(rest).len() {
                assert(tunnelled(rest)[k] == address);
            }
        }
    }
}

/// A name is compared letter by letter, `A` to `Z` as `a` to `z`, without the dots behind it, however
/// many, and with everything in front of them.
pub proof fn law_a_name_is_compared_without_the_dots_behind_it(
    name: Seq<char>,
    dots: nat,
    i: int,
)
    requires
        name.len() > 0,
        name.last() != '.',
        0 <= i < name.len(),
    ensures
        ({
            let compared = normal(name + Seq::new(dots, |k: int| '.'));
            &&& compared.len() == name.len()
            &&& 65 <= name[i] as int <= 90 ==> compared[i] as int == name[i] as int + 32
            &&& !(65 <= name[i] as int <= 90) ==> compared[i] == name[i]
        }),
    decreases dots,
{
    let dotted = name + Seq::new(dots, |k: int| '.');
    if dots > 0 {
        law_a_name_is_compared_without_the_dots_behind_it(name, (dots - 1) as nat, i);
        assert(dotted.last() == '.');
        assert(dotted.drop_last() =~= name + Seq::new((dots - 1) as nat, |k: int| '.'));
    } else {
        assert(dotted =~= name);
    }
}

/// A rule is kept as it is written but for how its name and its programs are compared: the same kind
/// of match, the same resolver, as many programs, and whether it routes.
pub proof fn law_a_rule_is_kept_as_it_is_written(rules: Seq<Rule>, i: int, k: int)
    requires
        0 <= i < rules.len(),
    ensures
        ({
            let line = normal_lines(rules)[i];
            let rule = rules[i];
            &&& normal_lines(rules).len() == rules.len()
            &&& line.resolver == rule.resolver@
            &&& line.route == rule.route
            &&& line.programs.len() == rule.programs@.len()
            &&& 0 <= k < rule.programs@.len() ==> line.programs[k] == path_text(rule.programs@[k]@)
            &&& match rule.matcher {
                Match::Exact(name) => line.matcher == Pattern::Exact(normal(name@)),
                Match::Suffix(name) => line.matcher == Pattern::Suffix(normal(name@)),
                Match::Any => line.matcher == Pattern::Any,
            }
        }),
{
}

/// The first fault is the one that is told: of the resolvers ahead of the rules, and of one rule that
/// its resolver is not declared ahead of its empty name.
pub proof fn law_the_first_fault_is_told(input: PolicyInput, at: int)
    ensures
        ({
            let resolvers = input.resolvers@;
            let lines = normal_lines(input.rules@);
            &&& 0 <= at < resolvers.len() && (forall|i: int|
                0 <= i < at ==> !#[trigger] faulty(resolvers, i)) ==> {
                &&& resolvers[at].kind == Kind::Doh && resolvers[at].url is None ==> refusal(input)
                    == Some(Refusal::MissingUrl(resolvers[at].id@))
                &&& !(resolvers[at].kind == Kind::Doh && resolvers[at].url is None) && faulty(
                    resolvers,
                    at,
                ) ==> refusal(input) == Some(Refusal::DuplicateResolver(resolvers[at].id@))
            }
            &&& 0 <= at < lines.len() && (forall|i: int|
                0 <= i < resolvers.len() ==> !#[trigger] faulty(resolvers, i)) && (forall|i: int|
                0 <= i < at ==> is_declared(
                    resolvers,
                    resolvers.len() as int,
                    (#[trigger] lines[i]).resolver,
                ) && !is_empty_match(lines[i].matcher)) ==> {
                &&& !is_declared(resolvers, resolvers.len() as int, lines[at].resolver) ==> refusal(
                    input,
                ) == Some(Refusal::UnknownResolver { rule: at, resolver: lines[at].resolver })
                &&& is_declared(resolvers, resolvers.len() as int, lines[at].resolver)
                    && is_empty_match(lines[at].matcher) ==> refusal(input) == Some(
                    Refusal::EmptyMatch(at),
                )
            }
        }),
{
    let resolvers = input.resolvers@;
    let lines = normal_lines(input.rules@);
    lemma_first_faulty(resolvers, 0, at);
    lemma_first_faulty(resolvers, 0, resolvers.len() as int);
    lemma_first_bad_rule(resolvers, lines, 0, at);
}

/// Whether something is wrong with a resolver: it is asked over a url and has none, or has the id of
/// one in front of it.
pub open spec fn faulty(resolvers: Seq<Resolver>, i: int) -> bool {
    ||| resolvers[i].kind == Kind::Doh && resolvers[i].url is None
    ||| exists|k: int| 0 <= k < i && (#[trigger] resolvers[k]).id@ == resolvers[i].id@
}

proof fn lemma_first_faulty(resolvers: Seq<Resolver>, from: int, at: int)
    requires
        0 <= from,
    ensures
        from <= at <= resolvers.len() && (forall|i: int|
            from <= i < at ==> !#[trigger] faulty(resolvers, i)) ==> resolver_refusal(resolvers, from)
            == resolver_refusal(resolvers, at),
    decreases at - from,
{
    if from < at <= resolvers.len() && (forall|i: int|
        from <= i < at ==> !#[trigger] faulty(resolvers, i)) {
        assert(!faulty(resolvers, from));
        lemma_first_faulty(resolvers, from + 1, at);
    }
}

proof fn lemma_first_bad_rule(resolvers: Seq<Resolver>, lines: Seq<Line>, from: int, at: int)
    requires
        0 <= from,
    ensures
        from <= at <= lines.len() && (forall|i: int|
            from <= i < at ==> is_declared(
                resolvers,
                resolvers.len() as int,
                (#[trigger] lines[i]).resolver,
            ) && !is_empty_match(lines[i].matcher)) ==> rule_refusal(resolvers, lines, from)
            == rule_refusal(resolvers, lines, at),
    decreases at - from,
{
    if from < at <= lines.len() && (forall|i: int|
        from <= i < at ==> is_declared(
            resolvers,
            resolvers.len() as int,
            (#[trigger] lines[i]).resolver,
        ) && !is_empty_match(lines[i].matcher)) {
        assert(is_declared(resolvers, resolvers.len() as int, lines[from].resolver));
        lemma_first_bad_rule(resolvers, lines, from + 1, at);
    }
}

/// Some rule is for every name and every program exactly where one matches anything and lists no
/// programs; an empty name is one that holds nothing but dots.
pub proof fn law_what_a_catch_all_and_an_empty_name_are(
    rules: Seq<Rule>,
    name: Seq<char>,
)
    ensures
        has_catch_all(normal_lines(rules)) <==> exists|i: int|
            0 <= i < rules.len() && (#[trigger] rules[i]).matcher is Any && rules[i].programs@.len()
                == 0,
        !is_empty_match(Pattern::Any),
        is_empty_match(normal_pattern(Pattern::Exact(name))) <==> (forall|i: int|
            0 <= i < name.len() ==> #[trigger] name[i] == '.'),
        is_empty_match(normal_pattern(Pattern::Suffix(name))) <==> (forall|i: int|
            0 <= i < name.len() ==> #[trigger] name[i] == '.'),
{
    let lines = normal_lines(rules);
    if has_catch_all(lines) {
        let i = choose|i: int|
            0 <= i < lines.len() && (#[trigger] lines[i]).matcher == Pattern::Any
                && lines[i].programs.len() == 0;
        assert(rules[i].matcher is Any && rules[i].programs@.len() == 0);
    }
    if exists|i: int|
        0 <= i < rules.len() && (#[trigger] rules[i]).matcher is Any && rules[i].programs@.len() == 0 {
        let i = choose|i: int|
            0 <= i < rules.len() && (#[trigger] rules[i]).matcher is Any && rules[i].programs@.len()
                == 0;
        assert(lines[i].matcher == Pattern::Any && lines[i].programs.len() == 0);
    }
    lemma_only_dots(name);
}

proof fn lemma_only_dots(name: Seq<char>)
    ensures
        undotted(name).len() == 0 <==> (forall|i: int|
            0 <= i < name.len() ==> #[trigger] name[i] == '.'),
    decreases name.len(),
{
    if name.len() > 0 {
        let before = name.drop_last();
        lemma_only_dots(before);
        assert(forall|i: int| 0 <= i < before.len() ==> #[trigger] before[i] == name[i]);
        assert(name[name.len() - 1] == name.last());
        if name.last() == '.' && (forall|i: int| 0 <= i < before.len() ==> #[trigger] before[i] == '.') {
            assert forall|i: int| 0 <= i < name.len() implies #[trigger] name[i] == '.' by {
                if i < before.len() {
                    assert(before[i] == '.');
                }
            }
        }
    }
}

} // verus!
