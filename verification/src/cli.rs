//! The command line: its arguments, the casing applied to each name, and the
//! check of the start rule.

use vstd::prelude::*;
use vstd::string::StringExecFns;
use crate::grammar::{has_rule, rule_index, Grammar, RuleModel};
use crate::text::{chars_of, message3, digits_value, is_ascii_digit, lemma_digits_mono, lemma_digits_step, push_char, push_chars, string_of};

verus! {

broadcast use vstd::string::group_string_axioms;

/// The casing applied to each generated name.
#[derive(Clone, Copy, Debug, PartialEq, Eq, Structural)]
pub enum Format {
    Plain,
    Upper,
    Lower,
    Capitalize,
}

/// The options of a run.
#[derive(Debug)]
pub struct Args {
    pub path: String,
    pub start: String,
    pub count: usize,
    pub seed: Option<u64>,
    pub format: Format,
}

/// What the command line asks for.
#[derive(Debug)]
pub enum Command {
    /// Print the usage text and stop.
    Help,
    /// Generate names.
    Run(Args),
}

pub struct ArgsModel {
    pub path: Seq<char>,
    pub start: Seq<char>,
    pub count: nat,
    pub seed: Option<nat>,
    pub format: Format,
}

pub enum CommandModel {
    Help,
    Run(ArgsModel),
}

impl View for Args {
    type V = ArgsModel;

    open spec fn view(&self) -> ArgsModel {
        ArgsModel {
            path: self.path@,
            start: self.start@,
            count: self.count as nat,
            seed: match self.seed {
                Some(s) => Some(s as nat),
                None => None,
            },
            format: self.format,
        }
    }
}

impl View for Command {
    type V = CommandModel;

    open spec fn view(&self) -> CommandModel {
        match self {
            Command::Help => CommandModel::Help,
            Command::Run(a) => CommandModel::Run(a@),
        }
    }
}

// ---------------------------------------------------------------------------
// Spec
// ---------------------------------------------------------------------------

/// The format that `raw` names, if any.
pub open spec fn format_named(raw: Seq<char>) -> Option<Format> {
    if raw == "none"@ {
        Some(Format::Plain)
    } else if raw == "upper"@ {
        Some(Format::Upper)
    } else if raw == "lower"@ {
        Some(Format::Lower)
    } else if raw == "capitalize"@ {
        Some(Format::Capitalize)
    } else {
        None
    }
}

pub open spec fn format_error(raw: Seq<char>) -> Seq<char> {
    "--format expects one of: none, upper, lower, capitalize (got '"@ + raw + "')"@
}

/// The digits of an unsigned integer: `s` without a leading `+`.
pub open spec fn unsigned_digits(s: Seq<char>) -> Seq<char> {
    if s.len() > 0 && s[0] == '+' {
        s.drop_first()
    } else {
        s
    }
}

/// An unsigned integer as `from_str` reads one: an optional `+`, then one or
/// more ASCII digits, worth at most `max`.
pub open spec fn unsigned_value(s: Seq<char>, max: nat) -> Option<nat> {
    let d = unsigned_digits(s);
    if d.len() == 0 || exists|i: int| 0 <= i < d.len() && !is_ascii_digit(#[trigger] d[i]) {
        None
    } else if digits_value(d) > max {
        None
    } else {
        Some(digits_value(d))
    }
}

/// The state of the argument reader.
pub struct ArgState {
    pub path: Option<Seq<char>>,
    pub start: Seq<char>,
    pub count: nat,
    pub seed: Option<nat>,
    pub format: Format,
}

pub open spec fn initial_args() -> ArgState {
    ArgState { path: None, start: "name"@, count: 10, seed: None, format: Format::Plain }
}

/// What the arguments from position `i` on ask for, with the options read
/// so far in `st`; or the error message.
pub open spec fn command_from(argv: Seq<Seq<char>>, i: int, st: ArgState) -> Result<
    CommandModel,
    Seq<char>,
>
    decreases argv.len() - i,
{
    if i >= argv.len() || i < 0 {
        match st.path {
            None => Err("missing grammar file argument"@),
            Some(p) => Ok(
                CommandModel::Run(
                    ArgsModel {
                        path: p,
                        start: st.start,
                        count: st.count,
                        seed: st.seed,
                        format: st.format,
                    },
                ),
            ),
        }
    } else {
        let a = argv[i];
        if a == "-h"@ || a == "--help"@ {
            Ok(CommandModel::Help)
        } else if a == "--start"@ {
            if i + 1 >= argv.len() {
                Err("--start requires a rule name"@)
            } else {
                command_from(argv, i + 2, ArgState { start: argv[i + 1], ..st })
            }
        } else if a == "--count"@ {
            if i + 1 >= argv.len() {
                Err("--count requires a number"@)
            } else {
                match unsigned_value(argv[i + 1], usize::MAX as nat) {
                    None => Err(
                        "--count expects a positive integer, got '"@ + argv[i + 1] + "'"@,
                    ),
                    Some(n) => command_from(argv, i + 2, ArgState { count: n, ..st }),
                }
            }
        } else if a == "--seed"@ {
            if i + 1 >= argv.len() {
                Err("--seed requires a number"@)
            } else {
                match unsigned_value(argv[i + 1], u64::MAX as nat) {
                    None => Err(
                        "--seed expects an unsigned integer, got '"@ + argv[i + 1] + "'"@,
                    ),
                    Some(n) => command_from(argv, i + 2, ArgState { seed: Some(n), ..st }),
                }
            }
        } else if a == "--format"@ {
            if i + 1 >= argv.len() {
                Err("--format requires a value"@)
            } else {
                match format_named(argv[i + 1]) {
                    None => Err(format_error(argv[i + 1])),
                    Some(f) => command_from(argv, i + 2, ArgState { format: f, ..st }),
                }
            }
        } else if st.path is None && !(a.len() > 0 && a[0] == '-') {
            command_from(argv, i + 1, ArgState { path: Some(a), ..st })
        } else {
            Err("unrecognized argument '"@ + a + "'"@)
        }
    }
}

/// What the command line `argv` (without the program name) asks for.
pub open spec fn command_of(argv: Seq<Seq<char>>) -> Result<CommandModel, Seq<char>> {
    command_from(argv, 0, initial_args())
}

/// `str::to_uppercase`: the full Unicode uppercase mapping of `s`.
pub uninterp spec fn upper_case(s: Seq<char>) -> Seq<char>;

/// `str::to_lowercase`: the full Unicode lowercase mapping of `s`.
pub uninterp spec fn lower_case(s: Seq<char>) -> Seq<char>;

/// `char::to_uppercase`: the characters that `c` uppercases to.
pub uninterp spec fn upper_char(c: char) -> Seq<char>;

/// A name with `f` applied.
pub open spec fn formatted(f: Format, name: Seq<char>) -> Seq<char> {
    match f {
        Format::Plain => name,
        Format::Upper => upper_case(name),
        Format::Lower => lower_case(name),
        Format::Capitalize => if name.len() == 0 {
            seq![]
        } else {
            upper_char(name[0]) + name.drop_first()
        },
    }
}

// ---------------------------------------------------------------------------
// Outside calls
// ---------------------------------------------------------------------------

/// Calls `str::to_uppercase`; its result is named [`upper_case`].
#[verifier::external_body]
fn str_upper(s: &str) -> (r: String)
    ensures
        r@ == upper_case(s@),
{
    s.to_uppercase()
}

/// Calls `str::to_lowercase`; its result is named [`lower_case`].
#[verifier::external_body]
fn str_lower(s: &str) -> (r: String)
    ensures
        r@ == lower_case(s@),
{
    s.to_lowercase()
}

/// Calls `char::to_uppercase` and collects its characters; the result is
/// named [`upper_char`].
#[verifier::external_body]
fn char_upper(c: char) -> (r: String)
    ensures
        r@ == upper_char(c),
{
    c.to_uppercase().collect()
}

// ---------------------------------------------------------------------------
// Exec
// ---------------------------------------------------------------------------

/// Whether `s` holds exactly the characters of `lit`.
fn chars_are(s: &Vec<char>, lit: &str) -> (r: bool)
    ensures
        r == (s@ == lit@),
{
    let l = chars_of(lit);
    if s.len() != l.len() {
        return false;
    }
    let mut i: usize = 0;
    while i < s.len()
        invariant
            i <= s.len(),
            s.len() == l.len(),
            l@ == lit@,
            forall|j: int| 0 <= j < i ==> s@[j] == l@[j],
        decreases s.len() - i,
    {
        if s[i] != l[i] {
            assert(s@[i as int] != l@[i as int]);
            return false;
        }
        i = i + 1;
    }
    assert(s@ =~= l@);
    true
}

/// `s` read as an unsigned integer of at most `max` (see [`unsigned_value`]).
#[verifier::loop_isolation(false)]
fn read_unsigned(s: &Vec<char>, max: u64) -> (r: Option<u64>)
    ensures
        unsigned_value(s@, max as nat) == match r {
            Some(v) => Some(v as nat),
            None => None,
        },
{
    let from: usize = if s.len() > 0 && s[0] == '+' {
        1
    } else {
        0
    };
    let ghost d = unsigned_digits(s@);
    assert(d =~= s@.skip(from as int));
    if s.len() == from {
        return None;
    }
    let mut val: u128 = 0;
    let mut i: usize = from;
    while i < s.len()
        invariant
            from <= i <= s.len(),
            d == s@.skip(from as int),
            forall|j: int| 0 <= j < i - from ==> is_ascii_digit(d[j]),
            val == digits_value(d.take(i - from)),
            val <= max,
        decreases s.len() - i,
    {
        let c = s[i];
        if !('0' <= c && c <= '9') {
            assert(!is_ascii_digit(d[i - from]));
            return None;
        }
        proof {
            lemma_digits_step(d, i - from);
        }
        val = val * 10 + ((c as u32) - 48) as u128;
        i = i + 1;
        if val > max as u128 {
            proof {
                lemma_digits_mono(d, i - from);
            }
            return None;
        }
    }
    assert(d.take(d.len() as int) =~= d);
    Some(val as u64)
}

impl Format {
    /// The format named `raw`.
    pub fn parse(raw: &str) -> (r: Result<Format, String>)
        ensures
            match r {
                Ok(f) => format_named(raw@) == Some(f),
                Err(m) => format_named(raw@) is None && m@ == format_error(raw@),
            },
    {
        let s = chars_of(raw);
        if chars_are(&s, "none") {
            Ok(Format::Plain)
        } else if chars_are(&s, "upper") {
            Ok(Format::Upper)
        } else if chars_are(&s, "lower") {
            Ok(Format::Lower)
        } else if chars_are(&s, "capitalize") {
            Ok(Format::Capitalize)
        } else {
            let mut m = String::from_str("--format expects one of: none, upper, lower, capitalize (got '");
            push_chars(&mut m, &s);
            m.append("')");
            Err(m)
        }
    }

    /// `name` with this casing applied.
    pub fn apply(self, name: &str) -> (r: String)
        ensures
            r@ == formatted(self, name@),
    {
        match self {
            Format::Plain => String::from_str(name),
            Format::Upper => str_upper(name),
            Format::Lower => str_lower(name),
            Format::Capitalize => {
                let s = chars_of(name);
                if s.len() == 0 {
                    String::new()
                } else {
                    capitalized(char_upper(s[0]), name)
                }
            },
        }
    }
}

/// A capitalized name: `first_upper` (what the first character of `name`
/// uppercases to) followed by the rest of `name`.
pub fn capitalized(first_upper: String, name: &str) -> (r: String)
    ensures
        r@ == if name@.len() == 0 {
            seq![]
        } else {
            first_upper@ + name@.drop_first()
        },
{
    let s = chars_of(name);
    if s.len() == 0 {
        return String::new();
    }
    let mut r = first_upper;
    let mut i: usize = 1;
    let ghost head = r@;
    while i < s.len()
        invariant
            1 <= i <= s.len(),
            r@ == head + s@.subrange(1, i as int),
        decreases s.len() - i,
    {
        push_char(&mut r, s[i]);
        i = i + 1;
        assert(r@ =~= head + s@.subrange(1, i as int));
    }
    assert(s@.subrange(1, s.len() as int) =~= s@.drop_first());
    r
}

/// Reads the command line `argv` (the arguments after the program name).
pub fn parse_args(argv: &Vec<String>) -> (r: Result<Command, String>)
    ensures
        command_of(argv@.map_values(|a: String| a@)) == match r {
            Ok(c) => Ok(c@),
            Err(m) => Err(m@),
        },
{
    let ghost av = argv@.map_values(|a: String| a@);
    let mut path: Option<String> = None;
    let mut start = String::from_str("name");
    let mut count: usize = 10;
    let mut seed: Option<u64> = None;
    let mut format = Format::Plain;
    let mut i: usize = 0;
    while i < argv.len()
        invariant
            i <= argv.len(),
            av == argv@.map_values(|a: String| a@),
            command_of(av) == command_from(
                av,
                i as int,
                ArgState {
                    path: match path {
                        Some(p) => Some(p@),
                        None => None,
                    },
                    start: start@,
                    count: count as nat,
                    seed: match seed {
                        Some(s) => Some(s as nat),
                        None => None,
                    },
                    format,
                },
            ),
        decreases argv.len() - i,
    {
        let a = chars_of(argv[i].as_str());
        assert(a@ == av[i as int]);
        if chars_are(&a, "-h") || chars_are(&a, "--help") {
            return Ok(Command::Help);
        } else if chars_are(&a, "--start") {
            if i + 1 >= argv.len() {
                return Err(String::from_str("--start requires a rule name"));
            }
            start = argv[i + 1].clone();
            assert(start@ == av[i + 1]);
            i = i + 2;
        } else if chars_are(&a, "--count") {
            if i + 1 >= argv.len() {
                return Err(String::from_str("--count requires a number"));
            }
            let raw = chars_of(argv[i + 1].as_str());
            match read_unsigned(&raw, usize::MAX as u64) {
                None => {
                    return Err(message3("--count expects a positive integer, got '", &raw, "'"));
                },
                Some(n) => {
                    count = n as usize;
                },
            }
            i = i + 2;
        } else if chars_are(&a, "--seed") {
            if i + 1 >= argv.len() {
                return Err(String::from_str("--seed requires a number"));
            }
            let raw = chars_of(argv[i + 1].as_str());
            match read_unsigned(&raw, u64::MAX) {
                None => {
                    return Err(message3("--seed expects an unsigned integer, got '", &raw, "'"));
                },
                Some(n) => {
                    seed = Some(n);
                },
            }
            i = i + 2;
        } else if chars_are(&a, "--format") {
            if i + 1 >= argv.len() {
                return Err(String::from_str("--format requires a value"));
            }
            match Format::parse(argv[i + 1].as_str()) {
                Err(m) => {
                    return Err(m);
                },
                Ok(f) => {
                    format = f;
                },
            }
            i = i + 2;
        } else if path.is_none() && !(a.len() > 0 && a[0] == '-') {
            path = Some(string_of(&a));
            i = i + 1;
        } else {
            return Err(message3("unrecognized argument '", &a, "'"));
        }
    }
    match path {
        None => Err(String::from_str("missing grammar file argument")),
        Some(p) => Ok(Command::Run(Args { path: p, start, count, seed, format })),
    }
}

// ---------------------------------------------------------------------------
// The start rule
// ---------------------------------------------------------------------------

/// `a` comes before `b` or equals it, comparing characters by scalar value
/// (the order of `str`).
pub open spec fn lex_le(a: Seq<char>, b: Seq<char>) -> bool
    decreases a.len(),
{
    if a.len() == 0 {
        true
    } else if b.len() == 0 {
        false
    } else if (a[0] as u32) != (b[0] as u32) {
        (a[0] as u32) < (b[0] as u32)
    } else {
        lex_le(a.drop_first(), b.drop_first())
    }
}

/// `x` inserted into `s` before the first element that it does not come after.
pub open spec fn insert_sorted(s: Seq<Seq<char>>, x: Seq<char>) -> Seq<Seq<char>>
    decreases s.len(),
{
    if s.len() == 0 {
        seq![x]
    } else if lex_le(x, s[0]) {
        seq![x] + s
    } else {
        seq![s[0]] + insert_sorted(s.drop_first(), x)
    }
}

/// `ns` in ascending order (an insertion sort).
pub open spec fn sorted_names(ns: Seq<Seq<char>>) -> Seq<Seq<char>>
    decreases ns.len(),
{
    if ns.len() == 0 {
        seq![]
    } else {
        insert_sorted(sorted_names(ns.drop_last()), ns.last())
    }
}

/// The elements of `ns` with `sep` between each two.
pub open spec fn join(ns: Seq<Seq<char>>, sep: Seq<char>) -> Seq<char>
    decreases ns.len(),
{
    if ns.len() == 0 {
        seq![]
    } else if ns.len() == 1 {
        ns[0]
    } else {
        join(ns.drop_last(), sep) + sep + ns.last()
    }
}

pub open spec fn names_of(g: Seq<RuleModel>) -> Seq<Seq<char>> {
    g.map_values(|r: RuleModel| r.name)
}

/// The message when the start rule is not defined: it lists the rule names
/// in ascending order.
pub open spec fn unknown_start_message(g: Seq<RuleModel>, start: Seq<char>) -> Seq<char> {
    "unknown start rule '"@ + start + "' - grammar defines: "@ + join(
        sorted_names(names_of(g)),
        ", "@,
    )
}

proof fn lemma_lex_le_skip(a: Seq<char>, b: Seq<char>, i: int)
    requires
        0 <= i <= a.len(),
        i <= b.len(),
        forall|j: int| 0 <= j < i ==> (a[j] as u32) == (b[j] as u32),
    ensures
        lex_le(a, b) == lex_le(a.skip(i), b.skip(i)),
    decreases i,
{
    if i > 0 {
        lemma_lex_le_skip(a.drop_first(), b.drop_first(), i - 1);
        assert(a.drop_first().skip(i - 1) =~= a.skip(i));
        assert(b.drop_first().skip(i - 1) =~= b.skip(i));
    } else {
        assert(a.skip(0) =~= a);
        assert(b.skip(0) =~= b);
    }
}

/// Whether `a` comes before `b` or equals it (see [`lex_le`]).
fn lex_le_of(a: &Vec<char>, b: &Vec<char>) -> (r: bool)
    ensures
        r == lex_le(a@, b@),
{
    let mut i: usize = 0;
    while i < a.len() && i < b.len() && (a[i] as u32) == (b[i] as u32)
        invariant
            i <= a.len(),
            i <= b.len(),
            forall|j: int| 0 <= j < i ==> (a@[j] as u32) == (b@[j] as u32),
        decreases a.len() - i,
    {
        i = i + 1;
    }
    proof {
        lemma_lex_le_skip(a@, b@, i as int);
    }
    if i == a.len() {
        true
    } else if i == b.len() {
        false
    } else {
        assert(a@.skip(i as int)[0] == a@[i as int]);
        assert(b@.skip(i as int)[0] == b@[i as int]);
        (a[i] as u32) < (b[i] as u32)
    }
}

proof fn lemma_insert_at(s: Seq<Seq<char>>, x: Seq<char>, k: int)
    requires
        0 <= k <= s.len(),
        forall|j: int| 0 <= j < k ==> !lex_le(x, s[j]),
        k == s.len() || lex_le(x, s[k]),
    ensures
        insert_sorted(s, x) == s.take(k) + seq![x] + s.skip(k),
    decreases k,
{
    if k > 0 {
        lemma_insert_at(s.drop_first(), x, k - 1);
        assert(seq![s[0]] + (s.drop_first().take(k - 1) + seq![x] + s.drop_first().skip(k - 1))
            =~= s.take(k) + seq![x] + s.skip(k));
    } else {
        if s.len() == 0 {
            assert(s.take(0) + seq![x] + s.skip(0) =~= seq![x]);
        } else {
            assert(s.take(0) + seq![x] + s.skip(0) =~= seq![x] + s);
        }
    }
}

/// Checks that `start` names a rule of `grammar`.
pub fn check_start(grammar: &Grammar, start: &str) -> (r: Result<(), String>)
    ensures
        r is Ok <==> has_rule(grammar@, start@),
        r matches Err(m) ==> m@ == unknown_start_message(grammar@, start@),
{
    let name = String::from_str(start);
    if rule_index(&grammar.rules, &name).is_some() {
        return Ok(());
    }
    let ghost ns = names_of(grammar@);
    let mut sorted: Vec<Vec<char>> = Vec::new();
    let ghost mut ss: Seq<Seq<char>> = seq![];
    let mut i: usize = 0;
    assert(ns.take(0) =~= Seq::<Seq<char>>::empty());
    while i < grammar.rules.len()
        invariant
            i <= grammar.rules.len(),
            ns == names_of(grammar@),
            ns.len() == grammar.rules.len(),
            ss == sorted_names(ns.take(i as int)),
            sorted.len() == ss.len(),
            forall|j: int| 0 <= j < sorted.len() ==> (#[trigger] sorted[j])@ == ss[j],
        decreases grammar.rules.len() - i,
    {
        let x = chars_of(grammar.rules[i].name.as_str());
        assert(x@ == ns[i as int]);
        let mut k: usize = 0;
        while k < sorted.len() && !lex_le_of(&x, &sorted[k])
            invariant
                k <= sorted.len(),
                sorted.len() == ss.len(),
                forall|j: int| 0 <= j < sorted.len() ==> (#[trigger] sorted[j])@ == ss[j],
                forall|j: int| 0 <= j < k ==> !lex_le(x@, ss[j]),
            decreases sorted.len() - k,
        {
            k = k + 1;
        }
        proof {
            lemma_insert_at(ss, x@, k as int);
            assert(ns.take(i + 1).drop_last() =~= ns.take(i as int));
            ss = ss.take(k as int) + seq![x@] + ss.skip(k as int);
        }
        let ghost prev = sorted@;
        let ghost xv = x@;
        sorted.insert(k, x);
        i = i + 1;
        assert forall|j: int| 0 <= j < sorted.len() implies (#[trigger] sorted[j])@ == ss[j] by {
            if j < k {
                assert(sorted[j] == prev[j]);
            } else if j == k {
            } else {
                assert(sorted[j] == prev[j - 1]);
            }
        }
    }
    assert(ns.take(ns.len() as int) =~= ns);
    let mut m = String::from_str("unknown start rule '");
    m.append(start);
    m.append("' - grammar defines: ");
    let ghost head = m@;
    let mut j: usize = 0;
    while j < sorted.len()
        invariant
            j <= sorted.len(),
            sorted.len() == ss.len(),
            forall|q: int| 0 <= q < sorted.len() ==> (#[trigger] sorted[q])@ == ss[q],
            m@ == head + join(ss.take(j as int), ", "@),
        decreases sorted.len() - j,
    {
        if j > 0 {
            m.append(", ");
        }
        push_chars(&mut m, &sorted[j]);
        j = j + 1;
        proof {
            let t = ss.take(j as int);
            assert(t.drop_last() =~= ss.take(j - 1));
            if j == 1 {
                assert(join(ss.take(0), ", "@) =~= Seq::<char>::empty());
            }
        }
        assert(m@ =~= head + join(ss.take(j as int), ", "@));
    }
    assert(ss.take(ss.len() as int) =~= ss);
    Err(m)
}


/// `s` is in ascending order.
pub open spec fn ascending(s: Seq<Seq<char>>) -> bool {
    forall|i: int, j: int| 0 <= i < j < s.len() ==> lex_le(s[i], s[j])
}

proof fn lemma_lex_total(a: Seq<char>, b: Seq<char>)
    ensures
        lex_le(a, b) || lex_le(b, a),
    decreases a.len(),
{
    if a.len() > 0 && b.len() > 0 && (a[0] as u32) == (b[0] as u32) {
        lemma_lex_total(a.drop_first(), b.drop_first());
    }
}

proof fn lemma_lex_trans(a: Seq<char>, b: Seq<char>, c: Seq<char>)
    requires
        lex_le(a, b),
        lex_le(b, c),
    ensures
        lex_le(a, c),
    decreases a.len(),
{
    if a.len() > 0 && (a[0] as u32) == (b[0] as u32) && (b[0] as u32) == (c[0] as u32) {
        lemma_lex_trans(a.drop_first(), b.drop_first(), c.drop_first());
    }
}

proof fn lemma_insert_sorted(s: Seq<Seq<char>>, x: Seq<char>)
    requires
        ascending(s),
    ensures
        ascending(insert_sorted(s, x)),
        insert_sorted(s, x).to_multiset() =~= s.to_multiset().insert(x),
    decreases s.len(),
{
    broadcast use vstd::seq_lib::group_to_multiset_ensures, vstd::multiset::group_multiset_axioms;

    if s.len() == 0 {
        assert(seq![x] =~= Seq::<Seq<char>>::empty().push(x));
    } else if lex_le(x, s[0]) {
        vstd::seq_lib::lemma_multiset_commutative(seq![x], s);
        assert(seq![x] =~= Seq::<Seq<char>>::empty().push(x));
        let r = seq![x] + s;
        assert forall|i: int, j: int| 0 <= i < j < r.len() implies lex_le(r[i], r[j]) by {
            if i == 0 {
                if j > 1 {
                    lemma_lex_trans(x, s[0], s[j - 1]);
                }
            } else {
                assert(lex_le(s[i - 1], s[j - 1]));
            }
        }
    } else {
        let rest = s.drop_first();
        assert(ascending(rest)) by {
            assert forall|i: int, j: int| 0 <= i < j < rest.len() implies lex_le(rest[i], rest[j]) by {
                assert(lex_le(s[i + 1], s[j + 1]));
            }
        }
        lemma_insert_sorted(rest, x);
        let ins = insert_sorted(rest, x);
        let r = seq![s[0]] + ins;
        assert(s =~= seq![s[0]] + rest);
        vstd::seq_lib::lemma_multiset_commutative(seq![s[0]], ins);
        vstd::seq_lib::lemma_multiset_commutative(seq![s[0]], rest);
        lemma_lex_total(x, s[0]);
        assert forall|k: int| 0 <= k < ins.len() implies lex_le(s[0], #[trigger] ins[k]) by {
            assert(ins.contains(ins[k]));
            assert(ins.to_multiset().count(ins[k]) > 0);
            if ins[k] != x {
                assert(rest.to_multiset().count(ins[k]) > 0);
                assert(rest.contains(ins[k]));
                let j = choose|j: int| 0 <= j < rest.len() && rest[j] == ins[k];
                assert(lex_le(s[0], s[j + 1]));
            }
        }
        assert forall|i: int, j: int| 0 <= i < j < r.len() implies lex_le(r[i], r[j]) by {
            if i == 0 {
                assert(r[j] == ins[j - 1]);
            } else {
                assert(r[i] == ins[i - 1]);
                assert(r[j] == ins[j - 1]);
            }
        }
    }
}

/// Law: the rule names listed when the start rule is unknown come in
/// ascending order, each rule name as often as the grammar has it.
pub proof fn lemma_sorted_names(ns: Seq<Seq<char>>)
    ensures
        ascending(sorted_names(ns)),
        sorted_names(ns).to_multiset() =~= ns.to_multiset(),
    decreases ns.len(),
{
    broadcast use vstd::seq_lib::group_to_multiset_ensures, vstd::multiset::group_multiset_axioms;

    if ns.len() > 0 {
        lemma_sorted_names(ns.drop_last());
        lemma_insert_sorted(sorted_names(ns.drop_last()), ns.last());
        assert(ns =~= ns.drop_last().push(ns.last()));
    }
}


/// `a` is `b` up to position `i`, where `a` has the smaller character.
pub open spec fn first_difference_below(a: Seq<char>, b: Seq<char>, i: int) -> bool {
    0 <= i < a.len() && i < b.len() && a.take(i) == b.take(i) && (a[i] as u32) < (b[i] as u32)
}

proof fn lemma_char_cast(c: char, d: char)
    requires
        c as u32 == d as u32,
    ensures
        c == d,
{
    assert(c == (c as u32) as char);
    assert(d == (d as u32) as char);
}

/// Law: the order in which rule names are listed is the lexicographic order
/// of `str`: `a` comes first (or equals `b`) exactly when `a` is a prefix of
/// `b`, or at the first position where they differ `a` has the character
/// with the smaller scalar value.
pub proof fn lemma_lexicographic(a: Seq<char>, b: Seq<char>)
    ensures
        lex_le(a, b) <==> (a.len() <= b.len() && a == b.take(a.len() as int)) || exists|i: int|
            first_difference_below(a, b, i),
    decreases a.len(),
{
    if a.len() == 0 {
        assert(a =~= b.take(0));
    } else if b.len() == 0 {
        assert(!(exists|i: int| first_difference_below(a, b, i)));
    } else if (a[0] as u32) != (b[0] as u32) {
        if (a[0] as u32) < (b[0] as u32) {
            assert(a.take(0) =~= b.take(0));
            assert(first_difference_below(a, b, 0));
        } else {
            assert forall|i: int| !first_difference_below(a, b, i) by {
                if first_difference_below(a, b, i) && i > 0 {
                    assert(a.take(i)[0] == b.take(i)[0]);
                }
            }
        }
        if a.len() <= b.len() && a == b.take(a.len() as int) {
            assert(a[0] == b.take(a.len() as int)[0]);
        }
    } else {
        let a1 = a.drop_first();
        let b1 = b.drop_first();
        lemma_char_cast(a[0], b[0]);
        lemma_lexicographic(a1, b1);
        if a.len() <= b.len() {
            if a == b.take(a.len() as int) {
                assert(a1 =~= b1.take(a1.len() as int));
            }
            if a1 == b1.take(a1.len() as int) {
                assert forall|j: int| 0 <= j < a.len() implies #[trigger] a[j] == b.take(a.len() as int)[j] by {
                    if j > 0 {
                        assert(a[j] == a1[j - 1]);
                        assert(a1[j - 1] == b1.take(a1.len() as int)[j - 1]);
                    }
                }
                assert(a =~= b.take(a.len() as int));
            }
        }
        if exists|i: int| first_difference_below(a, b, i) {
            let i = choose|i: int| first_difference_below(a, b, i);
            assert(i > 0);
            assert forall|j: int| 0 <= j < i - 1 implies #[trigger] a1.take(i - 1)[j] == b1.take(i - 1)[j] by {
                assert(a.take(i)[j + 1] == b.take(i)[j + 1]);
            }
            assert(a1.take(i - 1) =~= b1.take(i - 1));
            assert(first_difference_below(a1, b1, i - 1));
        }
        if exists|i: int| first_difference_below(a1, b1, i) {
            let i = choose|i: int| first_difference_below(a1, b1, i);
            assert forall|j: int| 0 <= j < i + 1 implies #[trigger] a.take(i + 1)[j] == b.take(i + 1)[j] by {
                if j > 0 {
                    assert(a1.take(i)[j - 1] == b1.take(i)[j - 1]);
                }
            }
            assert(a.take(i + 1) =~= b.take(i + 1));
            assert(first_difference_below(a, b, i + 1));
        }
    }
}

/// Law: a number on the command line is read as `from_str` reads an
/// unsigned integer: one or more decimal digits, after an optional `+`,
/// worth at most the type's maximum.
pub proof fn lemma_unsigned_read(d: Seq<char>, max: nat)
    requires
        d.len() > 0,
        forall|j: int| 0 <= j < d.len() ==> '0' <= #[trigger] d[j] <= '9',
    ensures
        unsigned_value(d, max) == (if digits_value(d) <= max {
            Some(digits_value(d))
        } else {
            None::<nat>
        }),
        unsigned_value(seq!['+'] + d, max) == unsigned_value(d, max),
{
    assert((seq!['+'] + d).drop_first() =~= d);
}

/// Law: text with a character that is neither a digit nor a leading `+`,
/// or with no digit at all, is no number.
pub proof fn lemma_unsigned_refused(s: Seq<char>, max: nat)
    requires
        s.len() == 0 || s == seq!['+'] || exists|k: int|
            0 <= k < s.len() && !('0' <= #[trigger] s[k] <= '9') && !(k == 0 && s[k] == '+'),
    ensures
        unsigned_value(s, max) is None,
{
    if s.len() > 0 && s != seq!['+'] {
        let k = choose|k: int|
            0 <= k < s.len() && !('0' <= #[trigger] s[k] <= '9') && !(k == 0 && s[k] == '+');
        let d = unsigned_digits(s);
        if s[0] == '+' {
            assert(d[k - 1] == s[k]);
        } else {
            assert(d[k] == s[k]);
        }
    }
}

/// Law: with the grammar file alone on the command line, a run takes the
/// defaults: start rule `name`, ten names, no fixed seed, no casing.
pub proof fn lemma_default_args(path: Seq<char>)
    requires
        !(path.len() > 0 && path[0] == '-'),
    ensures
        command_of(seq![path]) == Ok::<CommandModel, Seq<char>>(
            CommandModel::Run(
                ArgsModel { path, start: "name"@, count: 10, seed: None, format: Format::Plain },
            ),
        ),
{
    reveal_strlit("-h");
    reveal_strlit("--help");
    reveal_strlit("--start");
    reveal_strlit("--count");
    reveal_strlit("--seed");
    reveal_strlit("--format");
    let argv = seq![path];
    assert(argv[0] == path);
    if path.len() > 0 {
        assert(path != "-h"@ && path != "--help"@ && path != "--start"@ && path != "--count"@
            && path != "--seed"@ && path != "--format"@) by {
            assert("-h"@[0] == '-');
            assert("--help"@[0] == '-');
            assert("--start"@[0] == '-');
            assert("--count"@[0] == '-');
            assert("--seed"@[0] == '-');
            assert("--format"@[0] == '-');
        }
    } else {
        assert("-h"@.len() > 0);
        assert("--help"@.len() > 0);
        assert("--start"@.len() > 0);
        assert("--count"@.len() > 0);
        assert("--seed"@.len() > 0);
        assert("--format"@.len() > 0);
    }
    let st = ArgState { path: Some(path), ..initial_args() };
    assert(command_from(argv, 1, st) == Ok::<CommandModel, Seq<char>>(
        CommandModel::Run(
            ArgsModel { path, start: "name"@, count: 10, seed: None, format: Format::Plain },
        ),
    ));
    assert(command_from(argv, 0, initial_args()) == command_from(argv, 1, st));
}

} // verus!
