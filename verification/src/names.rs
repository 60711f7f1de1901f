//! Taking over the machine's name resolution, and giving it back.
//!
//! The answer is what creates the route, so a query answered by anything else is a connection that
//! leaves over the line instead of the tunnel. Every name has to arrive here; "most of them" is not
//! a usable state.
//!
//! **Adapter DNS settings are not touched.** Writing to them overwrites a choice the machine's owner
//! made, which then has to be recorded, restored correctly, and restored at all. The record is the
//! fragile part, so there is no record: one rule is written to the name resolution policy instead,
//! *every name is answered by the resolver at this address*. Undoing it is deleting a rule of this
//! core's own.
//!
//! The rule carries a mark. A core that was killed rather than stopped leaves the rule behind, and
//! the next run sweeps by that mark: no state has to survive in between.

use vstd::prelude::*;
use vstd::string::StringExecFns;
use crate::address::shown::{hex_digit, show, shown};
use crate::address::IpAddr;
use crate::dns::server::Resolver;
use crate::text::{between, decimal, digits, joined, lower, same, texts, utf16, wide};

verus! {

/// Where the operating system keeps the rules that say which resolver answers which names.
pub const RULES: &'static str =
    "SYSTEM\\CurrentControlSet\\Services\\Dnscache\\Parameters\\DnsPolicyConfig";

/// The rule this core writes.
///
/// A fixed name rather than a fresh one per run, so a core that was killed leaves exactly one rule
/// behind however many times it happens, and the next one replaces it rather than adding to it.
pub const RULE: &'static str = "{6D617371-7200-4000-8000-6E616D657301}";

/// What marks a rule as this core's, carried on the rule itself.
///
/// Everything the sweep needs is here rather than in a record kept alongside, so a run can repair
/// what an earlier one left with nothing having survived in between, and cannot remove a rule
/// belonging to something else.
pub const MARK: &'static str = "masqr";

/// The namespace meaning every name.
pub const EVERY_NAME: &'static str = ".";

/// The bit saying the rule names ordinary DNS servers.
pub const USES_GENERIC_SERVERS: u32 = 0x8;

/// The rule format this is written in.
pub const RULE_VERSION: u32 = 2;

/// How long the machine is given to start using the rule, in milliseconds.
///
/// The client picks the change up on its own; this is the ceiling on waiting for it, not an expected
/// duration. Past it the claim is treated as not having taken, which costs a fallback rather than a
/// machine that resolves nothing.
pub const CARRIED_WITHIN: u64 = 3000;

/// Why the machine's names could not be pointed at this core.
#[derive(Debug, Clone, Copy, PartialEq, Eq)]
pub enum NameError {
    /// The name policy could not be written: what was being done, and the error it failed with.
    Registry(&'static str, u32),
    /// The name policy was written but the machine did not use it.
    NotCarried,
}

/// What is said about names that could not be taken over.
pub open spec fn name_error_text(error: NameError) -> Seq<char> {
    match error {
        NameError::Registry(doing, status) => "the name policy could not be written ("@ + doing@
            + " failed with error "@ + digits(status as nat) + ")"@,
        NameError::NotCarried => "the name policy was written but the machine did not use it"@,
    }
}

impl NameError {
    /// What is said about it.
    pub fn text(&self) -> (text: String)
        ensures
            text@ == name_error_text(*self),
    {
        match self {
            NameError::Registry(doing, status) => {
                let status = decimal(*status as u128);
                let start = between(
                    "the name policy could not be written (",
                    doing,
                    " failed with error ",
                );
                between(start.as_str(), status.as_str(), ")")
            },
            NameError::NotCarried => String::from_str(
                "the name policy was written but the machine did not use it",
            ),
        }
    }
}

/// A value of the rule, as the registry keeps it: a number, a text in UTF-16, or a list of texts.
#[derive(Debug, PartialEq, Eq)]
pub enum RuleValue {
    Number(u32),
    Text(Vec<u16>),
    List(Vec<u16>),
}

/// Whether a value is a text.
pub open spec fn is_text(value: RuleValue, text: Seq<char>) -> bool {
    value matches RuleValue::Text(units) && units@ == utf16(text).push(0)
}

/// A list of namespaces, which the format spells as one string per entry and one empty entry after.
pub fn namespaces(value: &str) -> (units: Vec<u16>)
    ensures
        units@ == utf16(value@).push(0).push(0),
{
    let mut units = wide(value);
    units.push(0);
    units
}

/// The values of the rule that points every name at a resolver, each under its name, in the order
/// they are written.
pub fn rule_values(server: IpAddr) -> (values: Vec<(&'static str, RuleValue)>)
    ensures
        values@.len() == 6,
        values@[0] == ("Version", RuleValue::Number(RULE_VERSION)),
        values@[1].0@ == "Name"@,
        values@[1].1 matches RuleValue::List(units) && units@ == utf16(EVERY_NAME@).push(0).push(
            0,
        ),
        values@[2].0@ == "GenericDNSServers"@,
        is_text(values@[2].1, shown(server)),
        values@[3] == ("ConfigOptions", RuleValue::Number(USES_GENERIC_SERVERS)),
        values@[4].0@ == "Comment"@,
        is_text(values@[4].1, MARK@),
        values@[5].0@ == "DisplayName"@,
        is_text(values@[5].1, MARK@),
{
    let written = show(server);
    let mut values: Vec<(&'static str, RuleValue)> = Vec::new();
    values.push(("Version", RuleValue::Number(RULE_VERSION)));
    values.push(("Name", RuleValue::List(namespaces(EVERY_NAME))));
    values.push(("GenericDNSServers", RuleValue::Text(wide(written.as_str()))));
    values.push(("ConfigOptions", RuleValue::Number(USES_GENERIC_SERVERS)));
    values.push(("Comment", RuleValue::Text(wide(MARK))));
    values.push(("DisplayName", RuleValue::Text(wide(MARK))));
    values
}

/// What an attempt to write the rule came to.
pub fn rule_written(doing: &'static str, status: u32) -> (done: Result<(), NameError>)
    ensures
        done == if status == 0 {
            Ok::<(), NameError>(())
        } else {
            Err(NameError::Registry(doing, status))
        },
{
    if status == 0 {
        Ok(())
    } else {
        Err(NameError::Registry(doing, status))
    }
}

/// What stands before the first zero.
pub open spec fn before_nul(units: Seq<u16>) -> Seq<u16>
    decreases units.len(),
{
    if units.len() == 0 || units[0] == 0 {
        Seq::empty()
    } else {
        seq![units[0]] + before_nul(units.skip(1))
    }
}

/// The units of a text out of a buffer that it may end in the middle of.
pub fn until_nul(units: &[u16]) -> (text: Vec<u16>)
    ensures
        text@ == before_nul(units@),
{
    let mut text: Vec<u16> = Vec::new();
    let mut at: usize = 0;
    assert(units@.skip(0) =~= units@);
    while at < units.len() && units[at] != 0
        invariant
            at <= units@.len(),
            text@ + before_nul(units@.skip(at as int)) == before_nul(units@),
        decreases units@.len() - at,
    {
        let ghost rest = units@.skip(at as int);
        assert(rest.skip(1) =~= units@.skip(at + 1));
        text.push(units[at]);
        at += 1;
        assert(text@ + before_nul(units@.skip(at as int)) =~= before_nul(units@));
    }
    assert(text@ =~= before_nul(units@));
    text
}

/// A rule there is, and what it carries as its comment, where that is a text.
#[derive(Debug)]
pub struct Found {
    pub name: String,
    pub comment: Option<String>,
}

/// Whether a rule is this core's.
pub open spec fn is_ours(found: Found) -> bool {
    found.comment matches Some(comment) && comment@ == MARK@
}

/// The rules among these that are this core's, by their names.
pub open spec fn our_rules(found: Seq<Found>) -> Seq<Seq<char>>
    decreases found.len(),
{
    if found.len() == 0 {
        Seq::empty()
    } else {
        let before = our_rules(found.drop_last());
        if is_ours(found.last()) {
            before.push(found.last().name@)
        } else {
            before
        }
    }
}

/// Which rules to remove: every one this core wrote, and no other.
pub fn ours(found: &Vec<Found>) -> (names: Vec<String>)
    ensures
        texts(names@) == our_rules(found@),
{
    let mut names: Vec<String> = Vec::new();
    let mut at: usize = 0;
    assert(found@.take(0) =~= Seq::empty());
    assert(texts(names@) =~= our_rules(found@.take(0)));
    while at < found.len()
        invariant
            at <= found@.len(),
            texts(names@) == our_rules(found@.take(at as int)),
        decreases found@.len() - at,
    {
        let ghost before = names@;
        assert(found@.take(at + 1).drop_last() =~= found@.take(at as int));
        let marked = match &found[at].comment {
            Some(comment) => same(comment.as_str(), MARK),
            None => false,
        };
        if marked {
            names.push(found[at].name.clone());
            assert(texts(names@) =~= texts(before).push(found@[at as int].name@));
        }
        at += 1;
    }
    assert(found@.take(at as int) =~= found@);
    names
}

/// Whether the machine has to forget the answers it has, after so many rules were removed: the
/// answers this core gave must not outlive the rule that sent the questions here.
pub fn forget_after(removed: usize) -> (forget: bool)
    ensures
        forget == (removed > 0),
{
    removed > 0
}

/// A number as so many hexadecimal digits.
pub open spec fn hex_padded(n: nat, width: nat) -> Seq<char>
    decreases width,
{
    if width == 0 {
        Seq::empty()
    } else {
        hex_padded(n / 16, (width - 1) as nat).push(hex_digit(n % 16))
    }
}

/// A number as so many hexadecimal digits.
fn padded(n: u64, width: usize) -> (text: String)
    ensures
        text@ == hex_padded(n as nat, width as nat),
    decreases width,
{
    if width == 0 {
        let none = String::new();
        assert(none@ =~= hex_padded(n as nat, 0));
        return none;
    }
    let low: u8 = (n % 16) as u8;
    let last = if low < 10 {
        (48 + low) as char
    } else {
        (87 + low) as char
    };
    let mut text = padded(n / 16, width - 1);
    text.push(last);
    assert(text@ =~= hex_padded(n as nat, width as nat));
    text
}

/// The name for a number.
pub open spec fn canary_name(number: u64) -> Seq<char> {
    hex_padded(number as nat, 16) + ".masqr-check.invalid"@
}

/// A name nothing answers, in the namespace reserved for exactly that.
pub fn canary_for(number: u64) -> (name: String)
    ensures
        name@ == canary_name(number),
{
    let digits = padded(number, 16);
    joined(digits.as_str(), ".masqr-check.invalid")
}

/// `rand::random`: a number. Which, is chance, so nothing is claimed of it.
#[verifier::external_body]
fn random_number() -> (number: u64) {
    rand::random::<u64>()
}

/// A name nothing answers, different every time.
///
/// Different every time because a name asked once may be answered from a cache the second time, and
/// a query answered without reaching this resolver would prove the opposite of what is being
/// measured.
pub fn canary() -> (name: String)
    ensures
        exists|number: u64| name@ == #[trigger] canary_name(number),
{
    canary_for(random_number())
}

/// The rule was written, or not: where it was, watch for a name, and have the operating system
/// resolve it.
///
/// Asked of the operating system rather than of this resolver: what is being measured is the path an
/// ordinary program's name takes, and asking the socket directly would prove only that the socket is
/// open.
pub fn claimed(
    resolver: &mut Resolver,
    claim: Result<(), NameError>,
    name: String,
) -> (ask: Result<String, NameError>)
    requires
        old(resolver).wf(),
    ensures
        final(resolver).wf(),
        final(resolver).policy() == old(resolver).policy(),
        final(resolver).ready() == old(resolver).ready(),
        final(resolver).held() == old(resolver).held(),
        final(resolver).start() == old(resolver).start(),
        final(resolver).counts() == old(resolver).counts(),
        final(resolver).at() == old(resolver).at(),
        final(resolver).asking() == old(resolver).asking(),
        match claim {
            Ok(_) => ask == Ok::<String, NameError>(name) && final(resolver).wanted() == Some(
                lower(name@),
            ),
            Err(problem) => ask == Err::<String, NameError>(problem) && final(resolver).wanted()
                == old(resolver).wanted(),
        },
{
    match claim {
        Ok(_) => {
            resolver.watch_for(name.as_str());
            Ok(name)
        },
        Err(problem) => Err(problem),
    }
}

/// What is left to do about a claim.
#[derive(Debug, Clone, Copy, PartialEq, Eq)]
pub enum Proved {
    /// It took. What the machine already knows was answered by somebody else, and it will not ask
    /// again until those answers run out: have it forget them.
    Forget,
    /// It did not. Undo it, and report this.
    Undo(NameError),
}

/// The name arrived here, or the time for it is over.
///
/// A claim that cannot be proved is undone before anything is reported, so a caller that falls back
/// to something else is not falling back onto a rule still in place.
pub fn proved(resolver: &mut Resolver, carried: bool) -> (then: Proved)
    requires
        old(resolver).wf(),
    ensures
        final(resolver).wf(),
        final(resolver).wanted() is None,
        final(resolver).policy() == old(resolver).policy(),
        final(resolver).ready() == old(resolver).ready(),
        final(resolver).held() == old(resolver).held(),
        final(resolver).start() == old(resolver).start(),
        final(resolver).counts() == old(resolver).counts(),
        final(resolver).at() == old(resolver).at(),
        final(resolver).asking() == old(resolver).asking(),
        then == if carried {
            Proved::Forget
        } else {
            Proved::Undo(NameError::NotCarried)
        },
{
    resolver.stop_watching();
    if carried {
        Proved::Forget
    } else {
        Proved::Undo(NameError::NotCarried)
    }
}

/// A digit says which it is.
proof fn lemma_hex_digit(a: nat, b: nat)
    requires
        a < 16,
        b < 16,
        hex_digit(a) == hex_digit(b),
    ensures
        a == b,
{
}

/// Digits say which number they are of.
proof fn lemma_hex_padded(a: nat, b: nat, width: nat)
    requires
        hex_padded(a, width) == hex_padded(b, width),
    ensures
        a % power16(width) == b % power16(width),
    decreases width,
{
    if width > 0 {
        let x = hex_padded(a, width);
        let y = hex_padded(b, width);
        assert(x.drop_last() =~= hex_padded(a / 16, (width - 1) as nat));
        assert(y.drop_last() =~= hex_padded(b / 16, (width - 1) as nat));
        assert(x.last() == y.last());
        lemma_hex_digit(a % 16, b % 16);
        lemma_hex_padded(a / 16, b / 16, (width - 1) as nat);
        lemma_low_digit(a, power16((width - 1) as nat));
        lemma_low_digit(b, power16((width - 1) as nat));
        lemma_power16((width - 1) as nat);
    }
}

/// Sixteen multiplied by itself.
pub open spec fn power16(n: nat) -> nat
    decreases n,
{
    if n == 0 {
        1
    } else {
        16 * power16((n - 1) as nat)
    }
}

proof fn lemma_power16(n: nat)
    ensures
        power16(n) > 0,
    decreases n,
{
    if n > 0 {
        lemma_power16((n - 1) as nat);
    }
}

/// The lowest digit, taken apart from the rest.
proof fn lemma_low_digit(n: nat, unit: nat)
    ensures
        unit > 0 ==> n % (16 * unit) == (n / 16) % unit * 16 + n % 16,
{
    if unit > 0 {
        vstd::arithmetic::div_mod::lemma_mod_breakdown(n as int, 16, unit as int);
        assert(16 * ((n / 16) % unit) == (n / 16) % unit * 16) by (nonlinear_arith);
    }
}

/// No two numbers make one name, so a name that arrives is the one that was asked for.
pub proof fn law_canaries_differ(a: u64, b: u64)
    requires
        a != b,
    ensures
        canary_name(a) != canary_name(b),
{
    if canary_name(a) == canary_name(b) {
        lemma_padded_len(a as nat, 16);
        lemma_padded_len(b as nat, 16);
        assert(hex_padded(a as nat, 16) =~= canary_name(a).take(16));
        assert(hex_padded(b as nat, 16) =~= canary_name(b).take(16));
        lemma_hex_padded(a as nat, b as nat, 16);
        reveal_with_fuel(power16, 17);
        assert(power16(16) == 0x1_0000_0000_0000_0000);
        vstd::arithmetic::div_mod::lemma_small_mod(a as nat, power16(16));
        vstd::arithmetic::div_mod::lemma_small_mod(b as nat, power16(16));
    }
}

proof fn lemma_padded_len(n: nat, width: nat)
    ensures
        hex_padded(n, width).len() == width,
    decreases width,
{
    if width > 0 {
        lemma_padded_len(n / 16, (width - 1) as nat);
    }
}

/// The sweep removes no rule that belongs to something else, and leaves none of this core's: a name
/// is on the list exactly where some rule of that name carries the mark.
pub proof fn law_the_sweep_goes_by_the_mark(found: Seq<Found>, name: Seq<char>)
    ensures
        our_rules(found).contains(name) <==> exists|i: int|
            0 <= i < found.len() && is_ours(#[trigger] found[i]) && found[i].name@ == name,
    decreases found.len(),
{
    if found.len() > 0 {
        let before = found.drop_last();
        law_the_sweep_goes_by_the_mark(before, name);
        let kept = our_rules(before);
        if is_ours(found.last()) {
            assert(kept.push(found.last().name@).last() == found.last().name@);
            if kept.contains(name) {
                let i = choose|i: int| 0 <= i < kept.len() && kept[i] == name;
                assert(kept.push(found.last().name@)[i] == name);
            }
            if our_rules(found).contains(name) && name != found.last().name@ {
                let i = choose|i: int| 0 <= i < our_rules(found).len() && our_rules(found)[i] == name;
                assert(kept[i] == name);
            }
        }
        assert forall|i: int| 0 <= i < before.len() implies before[i] == found[i] by {}
        if exists|i: int| 0 <= i < found.len() && is_ours(#[trigger] found[i]) && found[i].name@ == name {
            let i = choose|i: int|
                0 <= i < found.len() && is_ours(#[trigger] found[i]) && found[i].name@ == name;
            if i < before.len() {
                assert(is_ours(before[i]) && before[i].name@ == name);
            }
        }
        if exists|i: int| 0 <= i < before.len() && is_ours(#[trigger] before[i]) && before[i].name@ == name {
            let i = choose|i: int|
                0 <= i < before.len() && is_ours(#[trigger] before[i]) && before[i].name@ == name;
            assert(is_ours(found[i]) && found[i].name@ == name);
        }
    }
}

/// A text ends at its first zero, whatever is in the buffer behind it, and at the end of the buffer
/// where there is none.
pub proof fn law_a_text_ends_at_its_first_zero(text: Seq<u16>, behind: Seq<u16>)
    requires
        forall|i: int| 0 <= i < text.len() ==> #[trigger] text[i] != 0,
    ensures
        before_nul(text) == text,
        before_nul(text + seq![0u16] + behind) == text,
    decreases text.len(),
{
    let whole = text + seq![0u16] + behind;
    if text.len() > 0 {
        assert(text[0] != 0);
        let rest = text.skip(1);
        assert forall|i: int| 0 <= i < rest.len() implies #[trigger] rest[i] != 0 by {
            assert(rest[i] == text[i + 1]);
        }
        law_a_text_ends_at_its_first_zero(rest, behind);
        assert(whole.skip(1) =~= rest + seq![0u16] + behind);
        assert(seq![text[0]] + rest =~= text);
    }
}

/// A rule is this core's by its comment alone, and those of this core are listed in the order they
/// were found, each as often as it was.
pub proof fn law_our_rules_are_listed_as_they_were_found(found: Seq<Found>, other: Found)
    ensures
        our_rules(Seq::empty()) == Seq::<Seq<char>>::empty(),
        other.comment is None ==> our_rules(found.push(other)) == our_rules(found),
        other.comment matches Some(comment) ==> our_rules(found.push(other)) == if comment@
            == "masqr"@ {
            our_rules(found).push(other.name@)
        } else {
            our_rules(found)
        },
{
    assert(found.push(other).drop_last() =~= found);
}

/// A number in so many hexadecimal digits is that many, from which as much of it as fits them can be
/// read back.
pub proof fn law_a_padded_number_can_be_read_back(n: nat, width: nat)
    ensures
        hex_padded(n, width).len() == width,
        crate::address::written::spelled(hex_padded(n, width), 16) == n % vstd::arithmetic::power::pow(
            16,
            width,
        ) as nat,
    decreases width,
{
    vstd::arithmetic::power::lemma_pow_positive(16, width);
    if width == 0 {
        vstd::arithmetic::power::lemma_pow0(16);
    } else {
        let less = (width - 1) as nat;
        law_a_padded_number_can_be_read_back(n / 16, less);
        vstd::arithmetic::power::lemma_pow_positive(16, less);
        let unit = vstd::arithmetic::power::pow(16, less);
        assert(vstd::arithmetic::power::pow(16, width) == 16 * unit) by {
            reveal(vstd::arithmetic::power::pow);
        }
        assert(hex_padded(n, width).drop_last() =~= hex_padded(n / 16, less));
        vstd::arithmetic::div_mod::lemma_mod_breakdown(n as int, 16, unit);
        assert(crate::address::written::digit_value(hex_digit(n % 16)) == n % 16);
    }
}

} // verus!
