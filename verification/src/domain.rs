//! The application manifest (`app.yaml`) and the lifecycle states.

use vstd::prelude::*;
use vstd::string::*;
use crate::text::{chars_are, chars_of};
use core::time::Duration;

verus! {

/// One docker compose stack of an application.
#[derive(Clone, Debug, PartialEq, Eq)]
pub struct Stack {
    /// Path of the compose file.
    pub compose: String,
    /// Optional stack-level health URL.
    pub health: Option<String>,
}

/// The `health:` block of a manifest.
#[derive(Clone, Debug, PartialEq, Eq)]
pub struct HealthConfig {
    /// URL polled to know when the backend is ready.
    pub backend: Option<String>,
}

/// One registered application, as declared by its manifest.
///
/// `stacks` keeps the manifest's stack names beside their stacks; every
/// operation runs over them in this order.
#[derive(Clone, Debug, PartialEq, Eq)]
pub struct Application {
    pub name: String,
    pub stacks: Vec<(String, Stack)>,
    pub dependencies: Option<Vec<String>>,
    pub routes: Vec<String>,
    pub idle_timeout: Option<String>,
    pub health: HealthConfig,
}

/// Lifecycle states of an application.
#[derive(Clone, Copy, Debug, PartialEq, Eq, Structural)]
pub enum State {
    Starting,
    Stopped,
    HealthCheck,
    Running,
    Idle,
    Stopping,
    Failed,
}

pub struct StackView {
    pub name: Seq<char>,
    pub compose: Seq<char>,
    pub health: Option<Seq<char>>,
}

pub struct ApplicationView {
    pub name: Seq<char>,
    pub stacks: Seq<StackView>,
    pub dependencies: Option<Seq<Seq<char>>>,
    pub routes: Seq<Seq<char>>,
    pub idle_timeout: Option<Seq<char>>,
    pub backend: Option<Seq<char>>,
}

pub open spec fn opt_view(o: Option<String>) -> Option<Seq<char>> {
    match o {
        Some(s) => Some(s@),
        None => None,
    }
}

pub open spec fn names_view(v: Seq<String>) -> Seq<Seq<char>> {
    v.map_values(|s: String| s@)
}

impl View for Application {
    type V = ApplicationView;

    open spec fn view(&self) -> ApplicationView {
        ApplicationView {
            name: self.name@,
            stacks: self.stacks@.map_values(
                |e: (String, Stack)|
                    StackView { name: e.0@, compose: e.1.compose@, health: opt_view(e.1.health) },
            ),
            dependencies: match self.dependencies {
                Some(d) => Some(names_view(d@)),
                None => None,
            },
            routes: names_view(self.routes@),
            idle_timeout: opt_view(self.idle_timeout),
            backend: opt_view(self.health.backend),
        }
    }
}

impl ApplicationView {
    /// No two stacks share a name: the manifest keys its stacks by name.
    pub open spec fn stacks_distinct(self) -> bool {
        forall|i: int, j: int| 0 <= i < j < self.stacks.len() ==> (#[trigger] self.stacks[i]).name != (#[trigger] self.stacks[j]).name
    }

    /// The dependency names, an absent list read as empty.
    pub open spec fn deps(self) -> Seq<Seq<char>> {
        match self.dependencies {
            Some(d) => d,
            None => Seq::empty(),
        }
    }
}

/// The text under which a state is stored: the variant's name.
pub open spec fn state_label(s: State) -> Seq<char> {
    match s {
        State::Starting => "Starting"@,
        State::Stopped => "Stopped"@,
        State::HealthCheck => "HealthCheck"@,
        State::Running => "Running"@,
        State::Idle => "Idle"@,
        State::Stopping => "Stopping"@,
        State::Failed => "Failed"@,
    }
}

impl State {
    /// The text under which the state is stored (the variant's name).
    pub fn label(&self) -> (s: String)
        ensures
            s@ == state_label(*self),
    {
        match self {
            State::Starting => String::from_str("Starting"),
            State::Stopped => String::from_str("Stopped"),
            State::HealthCheck => String::from_str("HealthCheck"),
            State::Running => String::from_str("Running"),
            State::Idle => String::from_str("Idle"),
            State::Stopping => String::from_str("Stopping"),
            State::Failed => String::from_str("Failed"),
        }
    }
}


pub open spec fn is_digit(c: char) -> bool {
    '0' <= c && c <= '9'
}

/// `char::is_alphabetic`: whether `c` has the Unicode `Alphabetic` property.
pub uninterp spec fn unicode_alphabetic(c: char) -> bool;

/// Whether `c` is alphabetic: for an ASCII character, an ASCII letter; for
/// any other, its Unicode `Alphabetic` property.
pub open spec fn alphabetic(c: char) -> bool {
    if (c as u32) < 128 {
        ('a' <= c && c <= 'z') || ('A' <= c && c <= 'Z')
    } else {
        unicode_alphabetic(c)
    }
}

/// `char::is_alphabetic`, whose answer is the Unicode `Alphabetic` property
/// of `c`: within ASCII that is the letters, as its documentation and the
/// Unicode data give it; beyond ASCII it is the `unicode_alphabetic` name
/// (its table is not stated).
#[verifier::external_body]
fn is_alphabetic(c: char) -> (r: bool)
    ensures
        r == alphabetic(c),
        (c as u32) >= 128 ==> r == unicode_alphabetic(c),
{
    c.is_alphabetic()
}

/// `Duration::from_secs`: the duration of `secs` whole seconds.
pub uninterp spec fn secs_duration(secs: u64) -> Duration;

/// `Duration::from_secs`, named by `secs_duration`.
#[verifier::external_body]
fn duration_from_secs(secs: u64) -> (d: Duration)
    ensures
        d == secs_duration(secs),
{
    Duration::from_secs(secs)
}

/// The ASCII digits of a timeout text, in order.
pub open spec fn timeout_digits(s: Seq<char>) -> Seq<char>
    decreases s.len(),
{
    if s.len() == 0 {
        Seq::empty()
    } else if is_digit(s.last()) {
        timeout_digits(s.drop_last()).push(s.last())
    } else {
        timeout_digits(s.drop_last())
    }
}

/// The alphabetic characters (other than ASCII digits) of a timeout text, in order.
pub open spec fn timeout_unit(s: Seq<char>) -> Seq<char>
    decreases s.len(),
{
    if s.len() == 0 {
        Seq::empty()
    } else if !is_digit(s.last()) && alphabetic(s.last()) {
        timeout_unit(s.drop_last()).push(s.last())
    } else {
        timeout_unit(s.drop_last())
    }
}

/// The number that a string of decimal digits spells.
pub open spec fn decimal_value(d: Seq<char>) -> nat
    decreases d.len(),
{
    if d.len() == 0 {
        0
    } else {
        decimal_value(d.drop_last()) * 10 + ((d.last() as int - '0' as int) as nat)
    }
}

/// Seconds per unit, for the units a timeout may use.
pub open spec fn unit_seconds(u: Seq<char>) -> Option<nat> {
    if u == "s"@ || u == "sec"@ || u == "secs"@ {
        Some(1)
    } else if u == "m"@ || u == "min"@ || u == "mins"@ {
        Some(60)
    } else if u == "h"@ || u == "hr"@ || u == "hrs"@ {
        Some(3600)
    } else {
        None
    }
}

/// The number of seconds that a timeout text such as `"30m"` stands for:
/// its digits read as a `u64`, times the seconds of its unit. `None` when
/// there are no digits, when they exceed `u64::MAX`, or when the unit is
/// not one of s/sec/secs, m/min/mins, h/hr/hrs.
pub open spec fn timeout_seconds(s: Seq<char>) -> Option<nat> {
    let d = timeout_digits(s);
    if d.len() == 0 || decimal_value(d) > u64::MAX {
        None
    } else {
        match unit_seconds(timeout_unit(s)) {
            Some(m) => Some(decimal_value(d) * m),
            None => None,
        }
    }
}

/// The seconds of a timeout text fit in a `u64` (or there are none).
pub open spec fn timeout_fits(s: Seq<char>) -> bool {
    match timeout_seconds(s) {
        Some(v) => v <= u64::MAX,
        None => true,
    }
}

proof fn lemma_decimal_grows(d: Seq<char>, c: char)
    requires
        is_digit(c),
    ensures
        decimal_value(d.push(c)) >= decimal_value(d) * 10,
        decimal_value(d.push(c)) == decimal_value(d) * 10 + ((c as int - '0' as int) as nat),
{
    assert(d.push(c).drop_last() =~= d);
}

/// Splits a timeout text into the value of its digits (`None` when there are
/// none or they exceed `u64::MAX`) and the seconds of its unit.
fn timeout_parts(text: &str) -> (r: (Option<u64>, Option<u64>))
    ensures
        r.0 == (if timeout_digits(text@).len() == 0 || decimal_value(timeout_digits(text@)) > u64::MAX {
            None::<u64>
        } else {
            Some(decimal_value(timeout_digits(text@)) as u64)
        }),
        match unit_seconds(timeout_unit(text@)) {
            Some(m) => r.1 == Some(m as u64),
            None => r.1 is None,
        },
{
    let cs = chars_of(text);
    let n = cs.len();
    let mut acc: Option<u64> = None;
    let mut big = false;
    let mut unit: Vec<char> = Vec::new();
    for i in 0..n
        invariant
            n == cs@.len(),
            cs@ == text@,
            unit@ == timeout_unit(cs@.take(i as int)),
            big == (decimal_value(timeout_digits(cs@.take(i as int))) > u64::MAX),
            !big ==> acc == (if timeout_digits(cs@.take(i as int)).len() == 0 {
                None::<u64>
            } else {
                Some(decimal_value(timeout_digits(cs@.take(i as int))) as u64)
            }),
    {
        let c = cs[i];
        let ghost pre = cs@.take(i as int);
        assert(cs@.take(i + 1).drop_last() =~= pre);
        assert(cs@.take(i + 1).last() == c);
        if '0' <= c && c <= '9' {
            proof {
                lemma_decimal_grows(timeout_digits(pre), c);
            }
            let d = ((c as u8) - 48) as u64;
            if !big {
                let cur: u64 = match acc {
                    Some(v) => v,
                    None => 0,
                };
                match cur.checked_mul(10) {
                    Some(t) => match t.checked_add(d) {
                        Some(v) => {
                            acc = Some(v);
                        },
                        None => {
                            big = true;
                        },
                    },
                    None => {
                        big = true;
                    },
                }
            }
        } else if is_alphabetic(c) {
            unit.push(c);
        }
    }
    assert(cs@.take(n as int) =~= cs@);
    let value = if big {
        None
    } else {
        acc
    };
    let mult = if chars_are(&unit, "s") || chars_are(&unit, "sec") || chars_are(&unit, "secs") {
        Some(1u64)
    } else if chars_are(&unit, "m") || chars_are(&unit, "min") || chars_are(&unit, "mins") {
        Some(60u64)
    } else if chars_are(&unit, "h") || chars_are(&unit, "hr") || chars_are(&unit, "hrs") {
        Some(3600u64)
    } else {
        None
    };
    (value, mult)
}

/// The number of seconds that a timeout text stands for (see `timeout_seconds`).
pub fn idle_timeout_seconds(text: &str) -> (r: Option<u64>)
    requires
        timeout_fits(text@),
    ensures
        match timeout_seconds(text@) {
            Some(v) => r == Some(v as u64),
            None => r is None,
        },
{
    let (value, mult) = timeout_parts(text);
    match (value, mult) {
        (Some(v), Some(m)) => {
            assert(v * m <= u64::MAX);
            Some(v * m)
        },
        _ => None,
    }
}

/// Whether the seconds of a timeout text fit in a `u64` (see `timeout_fits`).
pub fn idle_timeout_fits(text: &str) -> (r: bool)
    ensures
        r == timeout_fits(text@),
{
    let (value, mult) = timeout_parts(text);
    match (value, mult) {
        (Some(v), Some(m)) => v.checked_mul(m).is_some(),
        _ => true,
    }
}

/// The decimal digit of `d` (below ten).
pub open spec fn digit_char(d: nat) -> char {
    ((d + 48) as u32) as char
}

/// The decimal writing of `n`, without leading zeros.
pub open spec fn decimal_text(n: nat) -> Seq<char>
    decreases n,
{
    if n < 10 {
        seq![digit_char(n)]
    } else {
        decimal_text(n / 10).push(digit_char(n % 10))
    }
}

proof fn lemma_digits_concat(a: Seq<char>, b: Seq<char>)
    ensures
        timeout_digits(a + b) == timeout_digits(a) + timeout_digits(b),
        timeout_unit(a + b) == timeout_unit(a) + timeout_unit(b),
    decreases b.len(),
{
    if b.len() == 0 {
        assert(a + b =~= a);
        assert(timeout_digits(a) + timeout_digits(b) =~= timeout_digits(a));
        assert(timeout_unit(a) + timeout_unit(b) =~= timeout_unit(a));
    } else {
        lemma_digits_concat(a, b.drop_last());
        assert((a + b).drop_last() =~= a + b.drop_last());
        assert((a + b).last() == b.last());
        assert(timeout_digits(a) + timeout_digits(b.drop_last()).push(b.last())
            =~= (timeout_digits(a) + timeout_digits(b.drop_last())).push(b.last()));
        assert(timeout_unit(a) + timeout_unit(b.drop_last()).push(b.last())
            =~= (timeout_unit(a) + timeout_unit(b.drop_last())).push(b.last()));
    }
}

proof fn lemma_decimal_text(n: nat)
    ensures
        decimal_text(n).len() > 0,
        timeout_digits(decimal_text(n)) == decimal_text(n),
        timeout_unit(decimal_text(n)) == Seq::<char>::empty(),
        decimal_value(decimal_text(n)) == n,
    decreases n,
{
    if n < 10 {
        let t = seq![digit_char(n)];
        assert(is_digit(digit_char(n)));
        assert(t.drop_last() =~= Seq::<char>::empty());
        assert(t.last() == digit_char(n));
        assert(timeout_digits(t.drop_last()) == Seq::<char>::empty());
        assert(timeout_unit(t.drop_last()) == Seq::<char>::empty());
        assert(timeout_digits(t) == Seq::<char>::empty().push(digit_char(n)));
        assert(timeout_digits(t) =~= t);
        assert(timeout_unit(t) == Seq::<char>::empty());
        assert(decimal_value(t) == decimal_value(t.drop_last()) * 10 + ((t.last() as int - '0' as int) as nat));
    } else {
        lemma_decimal_text(n / 10);
        let p = decimal_text(n / 10);
        let c = digit_char(n % 10);
        assert(is_digit(c));
        assert(decimal_text(n).drop_last() =~= p);
        assert(decimal_text(n).last() == c);
        assert(timeout_digits(decimal_text(n)) == timeout_digits(p).push(c));
        assert(timeout_digits(decimal_text(n)) =~= decimal_text(n));
        assert(timeout_unit(decimal_text(n)) == timeout_unit(p));
        assert(decimal_value(decimal_text(n)) == decimal_value(p) * 10 + (n % 10));
    }
}

proof fn lemma_unit(u: Seq<char>)
    requires
        forall|k: int| 0 <= k < u.len() ==> 'a' <= #[trigger] u[k] && u[k] <= 'z',
    ensures
        timeout_digits(u) == Seq::<char>::empty(),
        timeout_unit(u) == u,
    decreases u.len(),
{
    if u.len() > 0 {
        lemma_unit(u.drop_last());
        assert(u.drop_last().push(u.last()) =~= u);
    }
}

proof fn lemma_spelling(v: nat, unit: Seq<char>, per: nat)
    requires
        v <= u64::MAX,
        unit_seconds(unit) == Some(per),
        forall|k: int| 0 <= k < unit.len() ==> 'a' <= #[trigger] unit[k] && unit[k] <= 'z',
    ensures
        timeout_seconds(decimal_text(v) + unit) == Some(v * per),
{
    lemma_decimal_text(v);
    lemma_unit(unit);
    lemma_digits_concat(decimal_text(v), unit);
    assert(timeout_digits(decimal_text(v) + unit) =~= decimal_text(v));
    assert(timeout_unit(decimal_text(v) + unit) =~= unit);
}

/// Law (unit spellings): `n` hours, `60 n` minutes and `3600 n` seconds,
/// each written as decimal digits followed by `h`, `m` or `s`, are the same
/// timeout of `3600 n` seconds.
pub proof fn law_unit_spellings(n: nat)
    requires
        n * 3600 <= u64::MAX,
    ensures
        timeout_seconds(decimal_text(n) + "h"@) == Some(n * 3600),
        timeout_seconds(decimal_text(n * 60) + "m"@) == Some(n * 3600),
        timeout_seconds(decimal_text(n * 3600) + "s"@) == Some(n * 3600),
{
    reveal_strlit("h");
    reveal_strlit("m");
    reveal_strlit("s");
    reveal_strlit("sec");
    reveal_strlit("secs");
    reveal_strlit("min");
    reveal_strlit("mins");
    reveal_strlit("hr");
    reveal_strlit("hrs");
    assert(unit_seconds("h"@) == Some(3600nat));
    assert(unit_seconds("m"@) == Some(60nat));
    assert(unit_seconds("s"@) == Some(1nat));
    assert((n * 60) * 60 == n * 3600) by (nonlinear_arith);
    lemma_spelling(n, "h"@, 3600);
    lemma_spelling(n * 60, "m"@, 60);
    lemma_spelling(n * 3600, "s"@, 1);
}

/// Law (unit table): `n` written in decimal and followed by any spelling of
/// a unit stands for `n` times that unit's seconds: `s`, `sec`, `secs` one,
/// `m`, `min`, `mins` sixty, `h`, `hr`, `hrs` three thousand six hundred.
pub proof fn law_unit_table(n: nat)
    requires
        n <= u64::MAX,
    ensures
        timeout_seconds(decimal_text(n) + "s"@) == Some(n),
        timeout_seconds(decimal_text(n) + "sec"@) == Some(n),
        timeout_seconds(decimal_text(n) + "secs"@) == Some(n),
        timeout_seconds(decimal_text(n) + "m"@) == Some(n * 60),
        timeout_seconds(decimal_text(n) + "min"@) == Some(n * 60),
        timeout_seconds(decimal_text(n) + "mins"@) == Some(n * 60),
        timeout_seconds(decimal_text(n) + "h"@) == Some(n * 3600),
        timeout_seconds(decimal_text(n) + "hr"@) == Some(n * 3600),
        timeout_seconds(decimal_text(n) + "hrs"@) == Some(n * 3600),
{
    reveal_strlit("h");
    reveal_strlit("m");
    reveal_strlit("s");
    reveal_strlit("sec");
    reveal_strlit("secs");
    reveal_strlit("min");
    reveal_strlit("mins");
    reveal_strlit("hr");
    reveal_strlit("hrs");
    assert("s"@[0] == 's' && "sec"@[0] == 's' && "secs"@[0] == 's');
    assert("m"@[0] == 'm' && "min"@[0] == 'm' && "mins"@[0] == 'm');
    assert("h"@[0] == 'h' && "hr"@[0] == 'h' && "hrs"@[0] == 'h');
    assert(unit_seconds("s"@) == Some(1nat));
    assert(unit_seconds("sec"@) == Some(1nat));
    assert(unit_seconds("secs"@) == Some(1nat));
    assert(unit_seconds("m"@) == Some(60nat));
    assert(unit_seconds("min"@) == Some(60nat));
    assert(unit_seconds("mins"@) == Some(60nat));
    assert(unit_seconds("h"@) == Some(3600nat));
    assert(unit_seconds("hr"@) == Some(3600nat));
    assert(unit_seconds("hrs"@) == Some(3600nat));
    lemma_spelling(n, "s"@, 1);
    lemma_spelling(n, "sec"@, 1);
    lemma_spelling(n, "secs"@, 1);
    lemma_spelling(n, "m"@, 60);
    lemma_spelling(n, "min"@, 60);
    lemma_spelling(n, "mins"@, 60);
    lemma_spelling(n, "h"@, 3600);
    lemma_spelling(n, "hr"@, 3600);
    lemma_spelling(n, "hrs"@, 3600);
}

impl Application {
    /// Whether no two stacks share a name (see `stacks_distinct`).
    pub fn has_distinct_stacks(&self) -> (r: bool)
        ensures
            r == self@.stacks_distinct(),
    {
        let ghost v = self@;
        let n = self.stacks.len();
        for j in 0..n
            invariant
                n == self.stacks@.len(),
                v == self@,
                forall|a: int, b: int| 0 <= a < b < j ==> (#[trigger] v.stacks[a]).name != (#[trigger] v.stacks[b]).name,
        {
            for i in 0..j
                invariant
                    j < n,
                    n == self.stacks@.len(),
                    v == self@,
                    forall|a: int, b: int| 0 <= a < b < j ==> (#[trigger] v.stacks[a]).name != (#[trigger] v.stacks[b]).name,
                    forall|a: int| 0 <= a < i ==> (#[trigger] v.stacks[a]).name != v.stacks[j as int].name,
            {
                assert(v.stacks[i as int].name == self.stacks@[i as int].0@);
                assert(v.stacks[j as int].name == self.stacks@[j as int].0@);
                if crate::text::str_eq(self.stacks[i].0.as_str(), self.stacks[j].0.as_str()) {
                    return false;
                }
            }
        }
        true
    }

    /// The seconds of the idle timeout fit in a `u64` (or it has none).
    pub open spec fn idle_timeout_in_range(&self) -> bool {
        match self.idle_timeout {
            Some(t) => timeout_fits(t@),
            None => true,
        }
    }

    /// The idle timeout in seconds, when there is one that parses.
    pub open spec fn idle_timeout_spec(&self) -> Option<nat> {
        match self.idle_timeout {
            Some(t) => timeout_seconds(t@),
            None => None,
        }
    }

    /// Whether the idle timeout's seconds fit in a `u64`.
    pub fn idle_timeout_fits(&self) -> (r: bool)
        ensures
            r == self.idle_timeout_in_range(),
    {
        match &self.idle_timeout {
            Some(t) => idle_timeout_fits(t.as_str()),
            None => true,
        }
    }

    /// The idle timeout as a duration: `None` when there is none, or when
    /// its text has no digits, too many, or an unknown unit.
    pub fn parsed_idle_timeout(&self) -> (r: Option<Duration>)
        requires
            self.idle_timeout_in_range(),
        ensures
            match self.idle_timeout_spec() {
                Some(v) => r == Some(secs_duration(v as u64)),
                None => r is None,
            },
    {
        let t = match &self.idle_timeout {
            Some(t) => t,
            None => return None,
        };
        match idle_timeout_seconds(t.as_str()) {
            Some(secs) => Some(duration_from_secs(secs)),
            None => None,
        }
    }
}

} // verus!
