//! Parser for grammar files.
//!
//! A grammar is a list of rules, one per line:
//!
//!   rule_name = alternative | alternative | alternative
//!
//! An alternative is plain text that may contain `<other_rule>` references,
//! which are expanded recursively at generation time, and `[...]` character
//! classes, which expand to one character of the listed set (`a-z` ranges
//! allowed; a `-` first or last in the brackets is a literal dash). An
//! alternative may end in `:N` to weight it N times as heavily as an
//! unweighted one. Lines starting with `#` are comments; blank lines are
//! ignored. Every error carries the line and the (byte) column of the
//! character that caused it, and the text of that line.

use vstd::prelude::*;
use vstd::string::StringExecFns;
use crate::text::{
    blen, cwidth, char_is_digit, message3, digits_value, lemma_digits_mono, lemma_digits_step, chars_of, count_char, count_in, decimal, find_char, find_from,
    is_ascii_digit, is_ident, is_identifier, is_ws, lead_ws, lead_ws_count, lemma_blen_split,
    lemma_blen_step, lemma_blen_subrange, lemma_cwidth, lemma_find_char_bound, lemma_lead_ws_bound,
    lemma_lines_blen, lemma_trail_ws_bound, lines_of, prefix_blen, push_char, push_chars,
    push_decimal, split_lines, string_of, sub_chars, trail_ws, trim, trim_chars, trim_start,
    lemma_find_char_first, lemma_lead_ws, lemma_ws_is_white_space, white_space, well_named,
    lemma_identifiers_are_names, lemma_trim_around, lemma_blen_concat,
};

verus! {

broadcast use vstd::string::group_string_axioms;

// ---------------------------------------------------------------------------
// Types and their models
// ---------------------------------------------------------------------------

/// A piece of an alternative.
#[derive(Debug)]
pub enum Part {
    /// Text copied to the output as it stands.
    Literal(String),
    /// A reference to another rule, with the position of its `<`.
    Reference { name: String, line: usize, column: usize },
    /// A character class: one of these characters is picked.
    CharClass(Vec<char>),
}

/// One alternative of a rule, with its weight.
#[derive(Debug)]
pub struct Alternative {
    pub parts: Vec<Part>,
    pub weight: u32,
}

/// A rule: its name, its alternatives and the line that defines it.
#[derive(Debug)]
pub struct Rule {
    pub name: String,
    pub alternatives: Vec<Alternative>,
    pub line: usize,
}

/// A parsed grammar: its rules in the order the file defines them.
#[derive(Debug)]
pub struct Grammar {
    pub rules: Vec<Rule>,
}

/// A parse error, pointing at a line and column of the grammar file.
#[derive(Debug)]
pub struct GrammarError {
    pub line: usize,
    pub column: usize,
    pub message: String,
    pub line_text: String,
}

pub enum PartModel {
    Literal(Seq<char>),
    Reference { name: Seq<char>, line: nat, column: nat },
    CharClass(Seq<char>),
}

pub struct AltModel {
    pub parts: Seq<PartModel>,
    pub weight: nat,
}

pub struct RuleModel {
    pub name: Seq<char>,
    pub alternatives: Seq<AltModel>,
    pub line: nat,
}

pub struct ErrorModel {
    pub line: nat,
    pub column: nat,
    pub message: Seq<char>,
    pub line_text: Seq<char>,
}

impl View for Part {
    type V = PartModel;

    open spec fn view(&self) -> PartModel {
        match self {
            Part::Literal(s) => PartModel::Literal(s@),
            Part::Reference { name, line, column } => PartModel::Reference {
                name: name@,
                line: *line as nat,
                column: *column as nat,
            },
            Part::CharClass(cs) => PartModel::CharClass(cs@),
        }
    }
}

pub open spec fn parts_model(ps: Seq<Part>) -> Seq<PartModel> {
    ps.map_values(|p: Part| p@)
}

impl View for Alternative {
    type V = AltModel;

    open spec fn view(&self) -> AltModel {
        AltModel { parts: parts_model(self.parts@), weight: self.weight as nat }
    }
}

pub open spec fn alts_model(alts: Seq<Alternative>) -> Seq<AltModel> {
    alts.map_values(|a: Alternative| a@)
}

impl View for Rule {
    type V = RuleModel;

    open spec fn view(&self) -> RuleModel {
        RuleModel {
            name: self.name@,
            alternatives: alts_model(self.alternatives@),
            line: self.line as nat,
        }
    }
}

pub open spec fn rules_model(rules: Seq<Rule>) -> Seq<RuleModel> {
    rules.map_values(|r: Rule| r@)
}

impl View for Grammar {
    type V = Seq<RuleModel>;

    open spec fn view(&self) -> Seq<RuleModel> {
        rules_model(self.rules@)
    }
}

impl View for GrammarError {
    type V = ErrorModel;

    open spec fn view(&self) -> ErrorModel {
        ErrorModel {
            line: self.line as nat,
            column: self.column as nat,
            message: self.message@,
            line_text: self.line_text@,
        }
    }
}

// ---------------------------------------------------------------------------
// Messages
// ---------------------------------------------------------------------------

pub open spec fn msg_no_eq() -> Seq<char> {
    "expected '=' after the rule name"@
}

pub open spec fn msg_empty_name() -> Seq<char> {
    "rule name cannot be empty"@
}

pub open spec fn msg_bad_name(name: Seq<char>) -> Seq<char> {
    "invalid rule name '"@ + name
        + "' - use letters, digits and underscores, starting with a letter or underscore"@
}

pub open spec fn msg_duplicate(name: Seq<char>, line: nat) -> Seq<char> {
    "rule '"@ + name + "' is already defined on line "@ + decimal(line)
}

pub open spec fn msg_empty_alt() -> Seq<char> {
    "empty alternative - remove the extra '|' or add text"@
}

pub open spec fn msg_weight_large(digits: Seq<char>) -> Seq<char> {
    "alternative weight '"@ + digits + "' is too large"@
}

pub open spec fn msg_weight_zero() -> Seq<char> {
    "alternative weight must be at least 1"@
}

pub open spec fn msg_open_ref() -> Seq<char> {
    "unterminated reference - missing closing '>'"@
}

pub open spec fn msg_empty_ref() -> Seq<char> {
    "empty reference '<>' - name a rule between the brackets"@
}

pub open spec fn msg_bad_ref(name: Seq<char>) -> Seq<char> {
    "invalid rule name '"@ + name + "' in reference"@
}

pub open spec fn msg_stray_close() -> Seq<char> {
    "unexpected '>' without matching '<'"@
}

pub open spec fn msg_open_class() -> Seq<char> {
    "unterminated character class - missing closing ']'"@
}

pub open spec fn msg_empty_class() -> Seq<char> {
    "empty character class '[]' - list at least one character"@
}

pub open spec fn msg_bad_range(lo: char, hi: char) -> Seq<char> {
    "invalid range '"@ + seq![lo, '-', hi]
        + "' in character class - the first character comes after the second"@
}

pub open spec fn msg_no_rules() -> Seq<char> {
    "grammar file has no rules"@
}

pub open spec fn msg_undefined(name: Seq<char>) -> Seq<char> {
    "undefined rule '"@ + name + "'"@
}

pub open spec fn error_at(line: nat, column: nat, message: Seq<char>, text: Seq<char>) -> ErrorModel {
    ErrorModel { line, column, message, line_text: text }
}

// ---------------------------------------------------------------------------
// The grammar format, as spec functions over characters
// ---------------------------------------------------------------------------

/// The number of ASCII digits at the end of `s`.
pub open spec fn trail_digits(s: Seq<char>) -> nat
    decreases s.len(),
{
    if s.len() > 0 && is_ascii_digit(s.last()) {
        1 + trail_digits(s.drop_last())
    } else {
        0
    }
}

/// Splits a trailing `:N` weight off an alternative's text. The `:` counts
/// only when it is followed by one or more digits and nothing else, and
/// stands outside any `<...>` reference; text made only of digits has no
/// weight.
pub open spec fn split_weight(t: Seq<char>, off: nat, line_no: nat, raw: Seq<char>) -> Result<
    (Seq<char>, nat),
    ErrorModel,
> {
    let ds = t.len() - trail_digits(t);
    if trail_digits(t) == 0 || ds == 0 || t[ds - 1] != ':' {
        Ok((t, 1))
    } else {
        let prefix = t.take(ds - 1);
        if count_char(prefix, '<') != count_char(prefix, '>') {
            Ok((t, 1))
        } else {
            let digits = t.skip(ds);
            let col = off + blen(t.take(ds)) + 1;
            if digits_value(digits) > u32::MAX {
                Err(error_at(line_no, col, msg_weight_large(digits), raw))
            } else if digits_value(digits) == 0 {
                Err(error_at(line_no, col, msg_weight_zero(), raw))
            } else {
                Ok((prefix, digits_value(digits)))
            }
        }
    }
}

/// The Unicode scalar values from `lo` to `hi`, in order.
pub open spec fn range_chars(lo: int, hi: int) -> Seq<char>
    decreases hi - lo + 1,
{
    if hi < lo {
        seq![]
    } else {
        range_chars(lo, hi - 1) + if vstd::utf8::is_scalar(hi as u32) {
            seq![hi as char]
        } else {
            seq![]
        }
    }
}

/// The characters of a class body from position `k` on, after those in
/// `acc`; on a range whose ends are out of order, the position of its
/// first character. `x-y` is a range; a `-` first or last in the body is a
/// literal dash.
pub open spec fn class_from(content: Seq<char>, k: int, acc: Seq<char>) -> Result<Seq<char>, int>
    decreases content.len() - k,
{
    if k >= content.len() {
        Ok(acc)
    } else if k + 2 < content.len() && content[k + 1] == '-' && !(k == 0 && content[k] == '-') {
        if (content[k] as u32) > (content[k + 2] as u32) {
            Err(k)
        } else {
            class_from(
                content,
                k + 3,
                acc + range_chars(content[k] as u32 as int, content[k + 2] as u32 as int),
            )
        }
    } else {
        class_from(content, k + 1, acc.push(content[k]))
    }
}

/// `acc` with the pending literal text appended, if there is any.
pub open spec fn flush(acc: Seq<PartModel>, lit: Seq<char>) -> Seq<PartModel> {
    if lit.len() > 0 {
        acc.push(PartModel::Literal(lit))
    } else {
        acc
    }
}

/// The parts of an alternative's text from position `i` on, after those in
/// `acc` and the pending literal `lit`. `off` is the byte offset of `text`
/// within the line.
pub open spec fn parts_from(
    text: Seq<char>,
    i: int,
    lit: Seq<char>,
    acc: Seq<PartModel>,
    off: nat,
    line_no: nat,
    raw: Seq<char>,
) -> Result<Seq<PartModel>, ErrorModel>
    decreases text.len() - i,
{
    if i >= text.len() || i < 0 {
        Ok(flush(acc, lit))
    } else {
        let c = text[i];
        let col = off + blen(text.take(i)) + 1;
        if c == '<' {
            match find_char(text.skip(i + 1), '>') {
                None => Err(error_at(line_no, col, msg_open_ref(), raw)),
                Some(k) => {
                    proof {
                        lemma_find_char_bound(text.skip(i + 1), '>');
                    }
                    let j = i + 1 + k;
                    let name = trim(text.subrange(i + 1, j));
                    if name.len() == 0 {
                        Err(error_at(line_no, col, msg_empty_ref(), raw))
                    } else if !is_ident(name) {
                        Err(error_at(line_no, col + 1, msg_bad_ref(name), raw))
                    } else {
                        parts_from(
                            text,
                            j + 1,
                            seq![],
                            flush(acc, lit).push(
                                PartModel::Reference { name, line: line_no, column: col },
                            ),
                            off,
                            line_no,
                            raw,
                        )
                    }
                },
            }
        } else if c == '>' {
            Err(error_at(line_no, col, msg_stray_close(), raw))
        } else if c == '[' {
            match find_char(text.skip(i + 1), ']') {
                None => Err(error_at(line_no, col, msg_open_class(), raw)),
                Some(k) => {
                    proof {
                        lemma_find_char_bound(text.skip(i + 1), ']');
                    }
                    let j = i + 1 + k;
                    let content = text.subrange(i + 1, j);
                    if content.len() == 0 {
                        Err(error_at(line_no, col, msg_empty_class(), raw))
                    } else {
                        match class_from(content, 0, seq![]) {
                            Err(q) => Err(
                                error_at(
                                    line_no,
                                    off + blen(text.take(i + 1 + q)) + 1,
                                    msg_bad_range(content[q], content[q + 2]),
                                    raw,
                                ),
                            ),
                            Ok(cs) => parts_from(
                                text,
                                j + 1,
                                seq![],
                                flush(acc, lit).push(PartModel::CharClass(cs)),
                                off,
                                line_no,
                                raw,
                            ),
                        }
                    }
                },
            }
        } else {
            parts_from(text, i + 1, lit.push(c), acc, off, line_no, raw)
        }
    }
}

/// One `|`-separated segment of a rule body, at byte offset `off`. A segment
/// with no text, or only a weight, is an empty alternative.
pub open spec fn parse_alt(seg: Seq<char>, off: nat, line_no: nat, raw: Seq<char>) -> Result<
    AltModel,
    ErrorModel,
> {
    let t = trim(seg);
    let toff = off + blen(seg.take(lead_ws(seg) as int));
    if t.len() == 0 {
        Err(error_at(line_no, toff + 1, msg_empty_alt(), raw))
    } else {
        match split_weight(t, toff, line_no, raw) {
            Err(e) => Err(e),
            Ok((text, w)) => if text.len() == 0 {
                Err(error_at(line_no, toff + 1, msg_empty_alt(), raw))
            } else {
                match parts_from(text, 0, seq![], seq![], toff, line_no, raw) {
                    Err(e) => Err(e),
                    Ok(ps) => Ok(AltModel { parts: ps, weight: w }),
                }
            },
        }
    }
}

/// The alternatives of a rule body (at byte offset `off`), after `acc`.
pub open spec fn parse_alts(
    body: Seq<char>,
    off: nat,
    acc: Seq<AltModel>,
    line_no: nat,
    raw: Seq<char>,
) -> Result<Seq<AltModel>, ErrorModel>
    decreases body.len(),
{
    match find_char(body, '|') {
        None => match parse_alt(body, off, line_no, raw) {
            Err(e) => Err(e),
            Ok(a) => Ok(acc.push(a)),
        },
        Some(k) => {
            proof {
                lemma_find_char_bound(body, '|');
            }
            match parse_alt(body.take(k as int), off, line_no, raw) {
                Err(e) => Err(e),
                Ok(a) => parse_alts(
                    body.skip((k + 1) as int),
                    off + blen(body.take(k as int)) + 1,
                    acc.push(a),
                    line_no,
                    raw,
                ),
            }
        },
    }
}

/// The index of the first rule named `name`.
pub open spec fn find_rule(rules: Seq<RuleModel>, name: Seq<char>) -> Option<nat>
    decreases rules.len(),
{
    if rules.len() == 0 {
        None
    } else if rules[0].name == name {
        Some(0)
    } else {
        match find_rule(rules.drop_first(), name) {
            Some(k) => Some(k + 1),
            None => None,
        }
    }
}

pub open spec fn has_rule(rules: Seq<RuleModel>, name: Seq<char>) -> bool {
    exists|i: int| 0 <= i < rules.len() && rules[i].name == name
}

/// What one line of the file contributes: nothing (blank or comment), a
/// rule, or an error. `rules` are the rules of the lines above it.
pub open spec fn line_outcome(raw: Seq<char>, line_no: nat, rules: Seq<RuleModel>) -> Result<
    Option<RuleModel>,
    ErrorModel,
> {
    let t = trim_start(raw);
    let indent = blen(raw.take(lead_ws(raw) as int));
    if t.len() == 0 || t[0] == '#' {
        Ok(None)
    } else {
        match find_char(t, '=') {
            None => Err(error_at(line_no, indent + 1, msg_no_eq(), raw)),
            Some(eq) => {
                let name = trim(t.take(eq as int));
                if name.len() == 0 {
                    Err(error_at(line_no, indent + 1, msg_empty_name(), raw))
                } else if !is_ident(name) {
                    Err(error_at(line_no, indent + 1, msg_bad_name(name), raw))
                } else {
                    match find_rule(rules, name) {
                        Some(r) => Err(
                            error_at(
                                line_no,
                                indent + 1,
                                msg_duplicate(name, rules[r as int].line),
                                raw,
                            ),
                        ),
                        None => match parse_alts(
                            t.skip((eq + 1) as int),
                            indent + blen(t.take(eq as int)) + 1,
                            seq![],
                            line_no,
                            raw,
                        ) {
                            Err(e) => Err(e),
                            Ok(alts) => Ok(
                                Some(RuleModel { name, alternatives: alts, line: line_no }),
                            ),
                        },
                    }
                }
            },
        }
    }
}

/// The rules of `lines[i..]`, after `rules`; or the first error.
pub open spec fn parse_lines(lines: Seq<Seq<char>>, i: int, rules: Seq<RuleModel>) -> Result<
    Seq<RuleModel>,
    ErrorModel,
>
    decreases lines.len() - i,
{
    if i >= lines.len() || i < 0 {
        Ok(rules)
    } else {
        match line_outcome(lines[i], (i + 1) as nat, rules) {
            Err(e) => Err(e),
            Ok(None) => parse_lines(lines, i + 1, rules),
            Ok(Some(r)) => parse_lines(lines, i + 1, rules.push(r)),
        }
    }
}

/// The first reference among `ps` to a rule that `rules` does not define.
pub open spec fn undefined_in_parts(ps: Seq<PartModel>, rules: Seq<RuleModel>) -> Option<
    (Seq<char>, nat, nat),
>
    decreases ps.len(),
{
    if ps.len() == 0 {
        None
    } else {
        match ps[0] {
            PartModel::Reference { name, line, column } => if !has_rule(rules, name) {
                Some((name, line, column))
            } else {
                undefined_in_parts(ps.drop_first(), rules)
            },
            _ => undefined_in_parts(ps.drop_first(), rules),
        }
    }
}

pub open spec fn undefined_in_alts(alts: Seq<AltModel>, rules: Seq<RuleModel>) -> Option<
    (Seq<char>, nat, nat),
>
    decreases alts.len(),
{
    if alts.len() == 0 {
        None
    } else {
        match undefined_in_parts(alts[0].parts, rules) {
            Some(x) => Some(x),
            None => undefined_in_alts(alts.drop_first(), rules),
        }
    }
}

pub open spec fn undefined_in_rules(rs: Seq<RuleModel>, rules: Seq<RuleModel>) -> Option<
    (Seq<char>, nat, nat),
>
    decreases rs.len(),
{
    if rs.len() == 0 {
        None
    } else {
        match undefined_in_alts(rs[0].alternatives, rules) {
            Some(x) => Some(x),
            None => undefined_in_rules(rs.drop_first(), rules),
        }
    }
}

/// The text of line number `n` (counting from 1), or nothing.
pub open spec fn line_text(lines: Seq<Seq<char>>, n: nat) -> Seq<char> {
    if 1 <= n <= lines.len() {
        lines[n - 1]
    } else {
        seq![]
    }
}

/// What parsing `source` gives: the rules in file order, or the error.
pub open spec fn grammar_of(source: Seq<char>) -> Result<Seq<RuleModel>, ErrorModel> {
    let lines = lines_of(source);
    match parse_lines(lines, 0, seq![]) {
        Err(e) => Err(e),
        Ok(rules) => if rules.len() == 0 {
            Err(error_at(1, 1, msg_no_rules(), line_text(lines, 1)))
        } else {
            match undefined_in_rules(rules, rules) {
                Some((name, line, column)) => Err(
                    error_at(line, column, msg_undefined(name), line_text(lines, line)),
                ),
                None => Ok(rules),
            }
        },
    }
}

// ---------------------------------------------------------------------------
// Facts about the spec functions
// ---------------------------------------------------------------------------

pub proof fn lemma_find_rule_first(rules: Seq<RuleModel>, name: Seq<char>, k: int)
    requires
        0 <= k < rules.len(),
        rules[k].name == name,
        forall|j: int| 0 <= j < k ==> rules[j].name != name,
    ensures
        find_rule(rules, name) == Some(k as nat),
    decreases k,
{
    if k > 0 {
        lemma_find_rule_first(rules.drop_first(), name, k - 1);
    }
}

pub proof fn lemma_find_rule_none(rules: Seq<RuleModel>, name: Seq<char>)
    requires
        forall|j: int| 0 <= j < rules.len() ==> rules[j].name != name,
    ensures
        find_rule(rules, name) == None::<nat>,
    decreases rules.len(),
{
    if rules.len() > 0 {
        lemma_find_rule_none(rules.drop_first(), name);
    }
}

/// A rule that `find_rule` finds has the name looked for.
pub proof fn lemma_find_rule_found(rules: Seq<RuleModel>, name: Seq<char>)
    ensures
        find_rule(rules, name) matches Some(k) ==> k < rules.len() && rules[k as int].name == name,
    decreases rules.len(),
{
    if rules.len() > 0 && rules[0].name != name {
        lemma_find_rule_found(rules.drop_first(), name);
    }
}

pub proof fn lemma_trail_digits(s: Seq<char>, k: int)
    requires
        0 <= k <= s.len(),
        forall|j: int| s.len() - k <= j < s.len() ==> is_ascii_digit(s[j]),
        k == s.len() || !is_ascii_digit(s[s.len() - k - 1]),
    ensures
        trail_digits(s) == k,
    decreases k,
{
    if k > 0 {
        lemma_trail_digits(s.drop_last(), k - 1);
    }
}

pub proof fn lemma_range_step(lo: int, v: int)
    requires
        lo <= v,
    ensures
        range_chars(lo, v) == range_chars(lo, v - 1) + if vstd::utf8::is_scalar(v as u32) {
            seq![v as char]
        } else {
            seq![]
        },
{
}

// ---------------------------------------------------------------------------
// Building values
// ---------------------------------------------------------------------------

/// `char::from_u32`: the character whose scalar value is `v`, if there is one.
#[verifier::external_body]
fn char_from_u32(v: u32) -> (r: Option<char>)
    ensures
        r is Some <==> vstd::utf8::is_scalar(v),
        r matches Some(c) ==> c == v as char,
{
    char::from_u32(v)
}

fn error_here(line_no: usize, column: usize, message: String, raw: &Vec<char>) -> (e: GrammarError)
    ensures
        e@ == error_at(line_no as nat, column as nat, message@, raw@),
{
    GrammarError { line: line_no, column, message, line_text: string_of(raw) }
}

/// Appends the characters from `lo` to `hi` (skipping surrogate values).
fn push_range(acc: &mut Vec<char>, lo: char, hi: char)
    requires
        (lo as u32) <= (hi as u32),
    ensures
        final(acc)@ == old(acc)@ + range_chars(lo as u32 as int, hi as u32 as int),
{
    let a = lo as u32;
    let b = hi as u32;
    let mut v: u32 = a;
    assert(old(acc)@ =~= old(acc)@ + range_chars(a as int, a - 1));
    while v <= b
        invariant
            a <= v <= b + 1,
            b <= 0x10FFFF,
            acc@ == old(acc)@ + range_chars(a as int, v - 1),
        decreases b + 1 - v,
    {
        proof {
            lemma_range_step(a as int, v as int);
        }
        match char_from_u32(v) {
            Some(c) => {
                acc.push(c);
            },
            None => {},
        }
        assert(acc@ =~= old(acc)@ + range_chars(a as int, v as int));
        v = v + 1;
    }
}

/// The characters of a class body, or the position of the first range
/// whose ends are out of order.
fn class_chars(content: &Vec<char>) -> (r: Result<Vec<char>, usize>)
    ensures
        class_from(content@, 0, seq![]) == match r {
            Ok(v) => Ok(v@),
            Err(q) => Err(q as int),
        },
        r matches Err(q) ==> q + 2 < content.len(),
{
    let mut acc: Vec<char> = Vec::new();
    let mut k: usize = 0;
    while k < content.len()
        invariant
            k <= content.len(),
            class_from(content@, 0, seq![]) == class_from(content@, k as int, acc@),
        decreases content.len() - k,
    {
        if content.len() - k > 2 && content[k + 1] == '-' && !(k == 0 && content[k] == '-') {
            let lo = content[k];
            let hi = content[k + 2];
            if (lo as u32) > (hi as u32) {
                return Err(k);
            }
            push_range(&mut acc, lo, hi);
            k = k + 3;
        } else {
            acc.push(content[k]);
            k = k + 1;
        }
    }
    Ok(acc)
}

/// Splits a trailing `:N` weight off `t` (see [`split_weight`]).
#[verifier::loop_isolation(false)]
fn split_weight_of(t: &Vec<char>, off: usize, line_no: usize, raw: &Vec<char>) -> (r: Result<
    (Vec<char>, u32),
    GrammarError,
>)
    requires
        off + blen(t@) < usize::MAX,
    ensures
        split_weight(t@, off as nat, line_no as nat, raw@) == match r {
            Ok((v, w)) => Ok((v@, w as nat)),
            Err(e) => Err(e@),
        },
        r matches Ok((v, w)) ==> blen(v@) <= blen(t@),
{
    let mut nd: usize = 0;
    while nd < t.len() && char_is_digit(t[t.len() - nd - 1])
        invariant
            nd <= t.len(),
            forall|j: int| t.len() - nd <= j < t.len() ==> is_ascii_digit(t@[j]),
        decreases t.len() - nd,
    {
        nd = nd + 1;
    }
    proof {
        lemma_trail_digits(t@, nd as int);
    }
    let ds = t.len() - nd;
    assert(t@.subrange(0, t.len() as int) =~= t@);
    if nd == 0 || ds == 0 || t[ds - 1] != ':' {
        return Ok((sub_chars(t, 0, t.len()), 1));
    }
    let prefix = sub_chars(t, 0, ds - 1);
    assert(prefix@ =~= t@.take(ds - 1));
    proof {
        lemma_blen_subrange(t@, ds - 1, ds - 1);
    }
    if count_in(&prefix, '<') != count_in(&prefix, '>') {
        return Ok((sub_chars(t, 0, t.len()), 1));
    }
    let digits = sub_chars(t, ds, t.len());
    proof {
        lemma_blen_subrange(t@, ds as int, ds as int);
        lemma_blen_subrange(t@, ds - 1, ds - 1);
    }
    let col = off + prefix_blen(t, ds) + 1;
    let mut val: u64 = 0;
    let mut i: usize = 0;
    while i < digits.len()
        invariant
            i <= digits.len(),
            digits@ == t@.skip(ds as int),
            forall|j: int| 0 <= j < digits.len() ==> is_ascii_digit(digits@[j]),
            val == digits_value(digits@.take(i as int)),
            val <= u32::MAX,
        decreases digits.len() - i,
    {
        proof {
            lemma_digits_step(digits@, i as int);
        }
        val = val * 10 + ((digits[i] as u32) - 48) as u64;
        i = i + 1;
        if val > 0xFFFF_FFFF {
            proof {
                lemma_digits_mono(digits@, i as int);
            }
            let msg = message3("alternative weight '", &digits, "' is too large");
            return Err(error_here(line_no, col, msg, raw));
        }
    }
    assert(digits@.take(digits.len() as int) =~= digits@);
    if val == 0 {
        return Err(error_here(line_no, col, String::from_str("alternative weight must be at least 1"), raw));
    }
    Ok((prefix, val as u32))
}

/// `acc` with the pending literal `lit` appended as a part, if non-empty.
fn flush_literal(acc: &mut Vec<Part>, lit: &Vec<char>)
    ensures
        parts_model(final(acc)@) == flush(parts_model(old(acc)@), lit@),
{
    if lit.len() > 0 {
        let ghost before = acc@;
        acc.push(Part::Literal(string_of(lit)));
        assert(parts_model(acc@) =~= parts_model(before).push(PartModel::Literal(lit@)));
    }
}

/// The parts of an alternative's text (see [`parts_from`]).
#[verifier::loop_isolation(false)]
fn parse_parts(text: &Vec<char>, off: usize, line_no: usize, raw: &Vec<char>) -> (r: Result<
    Vec<Part>,
    GrammarError,
>)
    requires
        off + blen(text@) < usize::MAX,
    ensures
        parts_from(text@, 0, seq![], seq![], off as nat, line_no as nat, raw@) == match r {
            Ok(ps) => Ok(parts_model(ps@)),
            Err(e) => Err(e@),
        },
{
    let ghost spec_result = parts_from(text@, 0, seq![], seq![], off as nat, line_no as nat, raw@);
    let mut parts: Vec<Part> = Vec::new();
    let mut lit: Vec<char> = Vec::new();
    let mut i: usize = 0;
    assert(parts_model(parts@) =~= Seq::<PartModel>::empty());
    while i < text.len()
        invariant
            i <= text.len(),
            spec_result == parts_from(
                text@,
                i as int,
                lit@,
                parts_model(parts@),
                off as nat,
                line_no as nat,
                raw@,
            ),
        decreases text.len() - i,
    {
        let c = text[i];
        proof {
            lemma_blen_step(text@, i as int);
            lemma_blen_subrange(text@, i + 1, i + 1);
            lemma_cwidth(c);
        }
        let col = off + prefix_blen(text, i) + 1;
        if c == '<' {
            match find_from(text, i + 1, '>') {
                None => {
                    return Err(error_here(line_no, col, String::from_str("unterminated reference - missing closing '>'"), raw));
                },
                Some(j) => {
                    let inner = sub_chars(text, i + 1, j);
                    let name = trim_chars(&inner);
                    if name.len() == 0 {
                        return Err(error_here(line_no, col, String::from_str("empty reference '<>' - name a rule between the brackets"), raw));
                    }
                    if !is_identifier(&name) {
                        let msg = message3("invalid rule name '", &name, "' in reference");
                        return Err(error_here(line_no, col + 1, msg, raw));
                    }
                    flush_literal(&mut parts, &lit);
                    let ghost before = parts@;
                    parts.push(Part::Reference { name: string_of(&name), line: line_no, column: col });
                    assert(parts_model(parts@) =~= parts_model(before).push(
                        PartModel::Reference { name: name@, line: line_no as nat, column: col as nat },
                    ));
                    lit = Vec::new();
                    assert(lit@ =~= Seq::<char>::empty());
                    i = j + 1;
                },
            }
        } else if c == '>' {
            return Err(error_here(line_no, col, String::from_str("unexpected '>' without matching '<'"), raw));
        } else if c == '[' {
            match find_from(text, i + 1, ']') {
                None => {
                    return Err(error_here(line_no, col, String::from_str("unterminated character class - missing closing ']'"), raw));
                },
                Some(j) => {
                    let content = sub_chars(text, i + 1, j);
                    if content.len() == 0 {
                        return Err(error_here(line_no, col, String::from_str("empty character class '[]' - list at least one character"), raw));
                    }
                    match class_chars(&content) {
                        Err(q) => {
                            proof {
                                lemma_blen_step(text@, i + 1 + q);
                                lemma_blen_subrange(text@, i + 2 + q, i + 2 + q);
                                lemma_cwidth(text@[i + 1 + q]);
                            }
                            let qcol = off + prefix_blen(text, i + 1 + q) + 1;
                            let mut msg = String::from_str("invalid range '");
                            push_char(&mut msg, content[q]);
                            push_char(&mut msg, '-');
                            push_char(&mut msg, content[q + 2]);
                            msg.append("' in character class - the first character comes after the second");
                            assert(msg@ =~= msg_bad_range(content@[q as int], content@[q + 2]));
                            return Err(error_here(line_no, qcol, msg, raw));
                        },
                        Ok(cs) => {
                            flush_literal(&mut parts, &lit);
                            let ghost before = parts@;
                            parts.push(Part::CharClass(cs));
                            assert(parts_model(parts@) =~= parts_model(before).push(
                                PartModel::CharClass(cs@),
                            ));
                            lit = Vec::new();
                            assert(lit@ =~= Seq::<char>::empty());
                            i = j + 1;
                        },
                    }
                },
            }
        } else {
            lit.push(c);
            i = i + 1;
        }
    }
    flush_literal(&mut parts, &lit);
    Ok(parts)
}

/// One `|`-separated segment of a rule body (see [`parse_alt`]).
fn parse_alternative(seg: &Vec<char>, off: usize, line_no: usize, raw: &Vec<char>) -> (r: Result<
    Alternative,
    GrammarError,
>)
    requires
        off + blen(seg@) < usize::MAX,
    ensures
        parse_alt(seg@, off as nat, line_no as nat, raw@) == match r {
            Ok(a) => Ok(a@),
            Err(e) => Err(e@),
        },
{
    let lw = lead_ws_count(seg);
    let t = trim_chars(seg);
    proof {
        lemma_blen_subrange(seg@, lw as int, lw as int);
        let rest = seg@.skip(lw as int);
        lemma_blen_split(seg@, lw as int);
        lemma_trail_ws_bound(rest);
        lemma_blen_subrange(rest, rest.len() - trail_ws(rest), rest.len() - trail_ws(rest));
    }
    let toff = off + prefix_blen(seg, lw);
    if t.len() == 0 {
        return Err(
            error_here(line_no, toff + 1, String::from_str("empty alternative - remove the extra '|' or add text"), raw),
        );
    }
    let (text, weight) = match split_weight_of(&t, toff, line_no, raw) {
        Ok(x) => x,
        Err(e) => {
            return Err(e);
        },
    };
    if text.len() == 0 {
        return Err(
            error_here(line_no, toff + 1, String::from_str("empty alternative - remove the extra '|' or add text"), raw),
        );
    }
    match parse_parts(&text, toff, line_no, raw) {
        Ok(parts) => Ok(Alternative { parts, weight }),
        Err(e) => Err(e),
    }
}

/// The alternatives of a rule body (see [`parse_alts`]).
#[verifier::loop_isolation(false)]
fn parse_body(body: &Vec<char>, off: usize, line_no: usize, raw: &Vec<char>) -> (r: Result<
    Vec<Alternative>,
    GrammarError,
>)
    requires
        off + blen(body@) < usize::MAX,
    ensures
        parse_alts(body@, off as nat, seq![], line_no as nat, raw@) == match r {
            Ok(alts) => Ok(alts_model(alts@)),
            Err(e) => Err(e@),
        },
{
    let ghost spec_result = parse_alts(body@, off as nat, seq![], line_no as nat, raw@);
    let mut alts: Vec<Alternative> = Vec::new();
    let mut start: usize = 0;
    assert(body@.skip(0) =~= body@);
    assert(body@.take(0) =~= Seq::<char>::empty());
    assert(alts_model(alts@) =~= Seq::<AltModel>::empty());
    loop
        invariant
            start <= body.len(),
            spec_result == parse_alts(
                body@.skip(start as int),
                (off + blen(body@.take(start as int))) as nat,
                alts_model(alts@),
                line_no as nat,
                raw@,
            ),
        decreases body.len() - start,
    {
        proof {
            lemma_blen_subrange(body@, start as int, body.len() as int);
        }
        let seg_off = off + prefix_blen(body, start);
        match find_from(body, start, '|') {
            None => {
                let seg = sub_chars(body, start, body.len());
                assert(seg@ =~= body@.skip(start as int));
                let alt = match parse_alternative(&seg, seg_off, line_no, raw) {
                    Ok(a) => a,
                    Err(e) => {
                        return Err(e);
                    },
                };
                let ghost before = alts@;
                alts.push(alt);
                assert(alts_model(alts@) =~= alts_model(before).push(alt@));
                return Ok(alts);
            },
            Some(k) => {
                let seg = sub_chars(body, start, k);
                proof {
                    assert(seg@ =~= body@.skip(start as int).take(k - start));
                    assert(body@.skip(start as int).skip(k - start + 1) =~= body@.skip(k + 1));
                    lemma_blen_subrange(body@, start as int, k as int);
                    lemma_blen_step(body@, k as int);
                    lemma_cwidth('|');
                    lemma_blen_subrange(body@, k + 1, k + 1);
                }
                let alt = match parse_alternative(&seg, seg_off, line_no, raw) {
                    Ok(a) => a,
                    Err(e) => {
                        return Err(e);
                    },
                };
                let ghost before = alts@;
                alts.push(alt);
                assert(alts_model(alts@) =~= alts_model(before).push(alt@));
                start = k + 1;
            },
        }
    }
}

/// The index of the rule named `name`, if there is one.
pub fn rule_index(rules: &Vec<Rule>, name: &String) -> (r: Option<usize>)
    ensures
        find_rule(rules_model(rules@), name@) == match r {
            Some(i) => Some(i as nat),
            None => None,
        },
        r matches Some(i) ==> i < rules.len() && rules@[i as int].name@ == name@,
        r is None <==> !has_rule(rules_model(rules@), name@),
{
    let ghost m = rules_model(rules@);
    let mut i: usize = 0;
    while i < rules.len()
        invariant
            i <= rules.len(),
            m == rules_model(rules@),
            forall|j: int| 0 <= j < i ==> m[j].name != name@,
        decreases rules.len() - i,
    {
        if rules[i].name == *name {
            proof {
                lemma_find_rule_first(m, name@, i as int);
                assert(m[i as int].name == name@);
            }
            return Some(i);
        }
        i = i + 1;
    }
    proof {
        lemma_find_rule_none(m, name@);
    }
    None
}

/// What one line contributes (see [`line_outcome`]).
fn parse_line(raw: &Vec<char>, line_no: usize, rules: &Vec<Rule>) -> (r: Result<
    Option<Rule>,
    GrammarError,
>)
    requires
        blen(raw@) < usize::MAX,
    ensures
        line_outcome(raw@, line_no as nat, rules_model(rules@)) == match r {
            Ok(None) => Ok(None),
            Ok(Some(rule)) => Ok(Some(rule@)),
            Err(e) => Err(e@),
        },
{
    let lw = lead_ws_count(raw);
    let t = sub_chars(raw, lw, raw.len());
    assert(t@ =~= trim_start(raw@));
    proof {
        lemma_blen_subrange(raw@, lw as int, lw as int);
        lemma_blen_split(raw@, lw as int);
    }
    let indent = prefix_blen(raw, lw);
    if t.len() == 0 || t[0] == '#' {
        return Ok(None);
    }
    assert(t@.skip(0) =~= t@);
    match find_from(&t, 0, '=') {
        None => {
            Err(error_here(line_no, indent + 1, String::from_str("expected '=' after the rule name"), raw))
        },
        Some(eq) => {
            let name_raw = sub_chars(&t, 0, eq);
            assert(name_raw@ =~= t@.take(eq as int));
            let name = trim_chars(&name_raw);
            if name.len() == 0 {
                return Err(error_here(line_no, indent + 1, String::from_str("rule name cannot be empty"), raw));
            }
            if !is_identifier(&name) {
                let msg = message3(
                    "invalid rule name '",
                    &name,
                    "' - use letters, digits and underscores, starting with a letter or underscore",
                );
                return Err(error_here(line_no, indent + 1, msg, raw));
            }
            let name_s = string_of(&name);
            match rule_index(rules, &name_s) {
                Some(ri) => {
                    let mut msg = message3("rule '", &name, "' is already defined on line ");
                    push_decimal(&mut msg, rules[ri].line);
                    assert(msg@ =~= msg_duplicate(name@, rules_model(rules@)[ri as int].line));
                    Err(error_here(line_no, indent + 1, msg, raw))
                },
                None => {
                    let body = sub_chars(&t, eq + 1, t.len());
                    proof {
                        assert(body@ =~= t@.skip(eq + 1));
                        lemma_blen_step(t@, eq as int);
                        lemma_cwidth('=');
                        lemma_blen_subrange(t@, eq + 1, eq + 1);
                        lemma_blen_split(t@, eq + 1);
                    }
                    let boff = indent + prefix_blen(&t, eq) + 1;
                    match parse_body(&body, boff, line_no, raw) {
                        Ok(alts) => Ok(Some(Rule { name: name_s, alternatives: alts, line: line_no })),
                        Err(e) => Err(e),
                    }
                },
            }
        },
    }
}

/// The first reference among `ps` to a rule that `rules` does not define.
fn undefined_part(ps: &Vec<Part>, rules: &Vec<Rule>) -> (r: Option<(String, usize, usize)>)
    ensures
        undefined_in_parts(parts_model(ps@), rules_model(rules@)) == match r {
            Some((n, l, c)) => Some((n@, l as nat, c as nat)),
            None => None,
        },
{
    let ghost all = parts_model(ps@);
    let mut i: usize = 0;
    assert(all.skip(0) =~= all);
    while i < ps.len()
        invariant
            i <= ps.len(),
            all == parts_model(ps@),
            undefined_in_parts(all, rules_model(rules@)) == undefined_in_parts(
                all.skip(i as int),
                rules_model(rules@),
            ),
        decreases ps.len() - i,
    {
        assert(all.skip(i as int).drop_first() =~= all.skip(i + 1));
        assert(all.skip(i as int)[0] == ps@[i as int]@);
        match &ps[i] {
            Part::Reference { name, line, column } => {
                if rule_index(rules, name).is_none() {
                    return Some((name.clone(), *line, *column));
                }
            },
            _ => {},
        }
        i = i + 1;
    }
    None
}

fn undefined_alt(alts: &Vec<Alternative>, rules: &Vec<Rule>) -> (r: Option<(String, usize, usize)>)
    ensures
        undefined_in_alts(alts_model(alts@), rules_model(rules@)) == match r {
            Some((n, l, c)) => Some((n@, l as nat, c as nat)),
            None => None,
        },
{
    let ghost all = alts_model(alts@);
    let mut i: usize = 0;
    assert(all.skip(0) =~= all);
    while i < alts.len()
        invariant
            i <= alts.len(),
            all == alts_model(alts@),
            undefined_in_alts(all, rules_model(rules@)) == undefined_in_alts(
                all.skip(i as int),
                rules_model(rules@),
            ),
        decreases alts.len() - i,
    {
        assert(all.skip(i as int).drop_first() =~= all.skip(i + 1));
        assert(all.skip(i as int)[0] == alts@[i as int]@);
        let found = undefined_part(&alts[i].parts, rules);
        if found.is_some() {
            return found;
        }
        i = i + 1;
    }
    None
}

fn undefined_rule(rs: &Vec<Rule>, rules: &Vec<Rule>) -> (r: Option<(String, usize, usize)>)
    ensures
        undefined_in_rules(rules_model(rs@), rules_model(rules@)) == match r {
            Some((n, l, c)) => Some((n@, l as nat, c as nat)),
            None => None,
        },
{
    let ghost all = rules_model(rs@);
    let mut i: usize = 0;
    assert(all.skip(0) =~= all);
    while i < rs.len()
        invariant
            i <= rs.len(),
            all == rules_model(rs@),
            undefined_in_rules(all, rules_model(rules@)) == undefined_in_rules(
                all.skip(i as int),
                rules_model(rules@),
            ),
        decreases rs.len() - i,
    {
        assert(all.skip(i as int).drop_first() =~= all.skip(i + 1));
        assert(all.skip(i as int)[0] == rs@[i as int]@);
        let found = undefined_alt(&rs[i].alternatives, rules);
        if found.is_some() {
            return found;
        }
        i = i + 1;
    }
    None
}

/// Parses a grammar file.
///
/// The result is exactly [`grammar_of`] of the file's characters: the rules
/// in the order the file defines them, or the first error. Lines are read
/// in order; within a line, the checks run left to right; a file without
/// rules, and then a reference to a rule that no line defines (the first
/// such reference in file order), are reported after every line parsed.
pub fn parse(source: &str) -> (r: Result<Grammar, GrammarError>)
    requires
        blen(source@) < usize::MAX,
    ensures
        grammar_of(source@) == match r {
            Ok(g) => Ok(g@),
            Err(e) => Err(e@),
        },
{
    let src = chars_of(source);
    let lines = split_lines(&src);
    let ghost ls = lines_of(src@);
    proof {
        lemma_lines_blen(src@);
    }
    let mut rules: Vec<Rule> = Vec::new();
    let mut i: usize = 0;
    assert(rules_model(rules@) =~= Seq::<RuleModel>::empty());
    while i < lines.len()
        invariant
            i <= lines.len(),
            ls == lines_of(src@),
            src@ == source@,
            blen(source@) < usize::MAX,
            lines.len() == ls.len(),
            forall|k: int| 0 <= k < lines.len() ==> (#[trigger] lines[k])@ == ls[k],
            forall|k: int| 0 <= k < ls.len() ==> blen(#[trigger] ls[k]) <= blen(src@),
            parse_lines(ls, 0, seq![]) == parse_lines(ls, i as int, rules_model(rules@)),
        decreases lines.len() - i,
    {
        assert(lines[i as int]@ == ls[i as int]);
        match parse_line(&lines[i], i + 1, &rules) {
            Err(e) => {
                return Err(e);
            },
            Ok(None) => {},
            Ok(Some(rule)) => {
                let ghost before = rules@;
                rules.push(rule);
                assert(rules_model(rules@) =~= rules_model(before).push(rule@));
            },
        }
        i = i + 1;
    }
    if rules.len() == 0 {
        let first = if lines.len() > 0 {
            string_of(&lines[0])
        } else {
            String::new()
        };
        return Err(GrammarError {
            line: 1,
            column: 1,
            message: String::from_str("grammar file has no rules"),
            line_text: first,
        });
    }
    match undefined_rule(&rules, &rules) {
        Some((name, line, column)) => {
            let text = if 1 <= line && line <= lines.len() {
                string_of(&lines[line - 1])
            } else {
                String::new()
            };
            let mut msg = String::from_str("undefined rule '");
            msg.append(name.as_str());
            msg.append("'");
            Err(GrammarError { line, column, message: msg, line_text: text })
        },
        None => Ok(Grammar { rules }),
    }
}

/// What generation needs of a grammar, and what parsing guarantees: rule
/// names are unique, every rule has alternatives, every weight is a `u32`
/// of at least 1, every character class is non-empty and every reference names a rule.
pub open spec fn grammar_wf(g: Seq<RuleModel>) -> bool {
    &&& forall|i: int, j: int| 0 <= i < j < g.len() ==> g[i].name != g[j].name
    &&& forall|i: int| 0 <= i < g.len() ==> (#[trigger] g[i]).alternatives.len() > 0
    &&& forall|i: int, a: int|
        0 <= i < g.len() && 0 <= a < g[i].alternatives.len() ==> 1 <= (
        #[trigger] g[i].alternatives[a]).weight <= u32::MAX
    &&& forall|i: int, a: int, p: int|
        0 <= i < g.len() && 0 <= a < g[i].alternatives.len() && 0 <= p
            < g[i].alternatives[a].parts.len() ==> part_ok(
            g,
            #[trigger] g[i].alternatives[a].parts[p],
        )
}

/// A part that generation can expand.
pub open spec fn part_ok(g: Seq<RuleModel>, p: PartModel) -> bool {
    match p {
        PartModel::CharClass(cs) => cs.len() > 0,
        PartModel::Reference { name, .. } => has_rule(g, name),
        PartModel::Literal(_) => true,
    }
}

// ---------------------------------------------------------------------------
// Showing an error
// ---------------------------------------------------------------------------

/// `n` spaces.
pub open spec fn spaces(n: nat) -> Seq<char> {
    Seq::new(n, |i: int| ' ')
}

/// An error as it is shown: the message, the position, the line and a caret
/// under the column. The caret line is indented by the width of the line
/// number, so that the caret stands under the cited character.
pub open spec fn rendered(e: ErrorModel) -> Seq<char> {
    "error: "@ + e.message + "\n  --> "@ + decimal(e.line) + ":"@ + decimal(e.column)
        + "\n  |\n"@ + decimal(e.line) + " | "@ + e.line_text + "\n"@ + spaces(decimal(e.line).len())
        + " | "@ + spaces(
        if e.column >= 1 {
            (e.column - 1) as nat
        } else {
            0
        },
    ) + "^"@
}

/// Appends `n` spaces to `s`.
fn push_spaces(s: &mut String, n: usize)
    ensures
        final(s)@ == old(s)@ + spaces(n as nat),
{
    let ghost before = s@;
    let mut k: usize = 0;
    while k < n
        invariant
            k <= n,
            s@ == before + spaces(k as nat),
        decreases n - k,
    {
        push_char(s, ' ');
        k = k + 1;
        assert(s@ =~= before + spaces(k as nat));
    }
}

impl GrammarError {
    /// The error as it is shown to the user (see [`rendered`]).
    pub fn render(&self) -> (r: String)
        ensures
            r@ == rendered(self@),
    {
        let mut num = String::new();
        push_decimal(&mut num, self.line);
        let width = chars_of(num.as_str()).len();
        let mut s = String::from_str("error: ");
        s.append(self.message.as_str());
        s.append("\n  --> ");
        push_decimal(&mut s, self.line);
        s.append(":");
        push_decimal(&mut s, self.column);
        s.append("\n  |\n");
        push_decimal(&mut s, self.line);
        s.append(" | ");
        s.append(self.line_text.as_str());
        s.append("\n");
        assert(num@ =~= decimal(self.line as nat));
        push_spaces(&mut s, width);
        s.append(" | ");
        let n: usize = if self.column >= 1 {
            self.column - 1
        } else {
            0
        };
        push_spaces(&mut s, n);
        s.append("^");
        s
    }
}

// ---------------------------------------------------------------------------
// What parsing guarantees
// ---------------------------------------------------------------------------

/// Every character class among `ps` is non-empty, and every reference
/// names an identifier and sits on a line numbered from 1.
pub open spec fn classes_ok(ps: Seq<PartModel>) -> bool {
    forall|p: int|
        0 <= p < ps.len() ==> {
            &&& (#[trigger] ps[p] matches PartModel::CharClass(cs) ==> cs.len() > 0)
            &&& (ps[p] matches PartModel::Reference { name, line, .. } ==> is_ident(name) && line
                >= 1)
        }
}

/// Every alternative has a `u32` weight of at least 1, and parts as
/// [`classes_ok`] says.
pub open spec fn alts_ok(alts: Seq<AltModel>) -> bool {
    forall|a: int|
        0 <= a < alts.len() ==> 1 <= (#[trigger] alts[a]).weight <= u32::MAX && classes_ok(
            alts[a].parts,
        )
}

/// The rules have unique identifier names and lines numbered from 1, and
/// alternatives as [`alts_ok`] says.
pub open spec fn rules_ok(rules: Seq<RuleModel>) -> bool {
    &&& forall|i: int, j: int| 0 <= i < j < rules.len() ==> rules[i].name != rules[j].name
    &&& forall|i: int|
        0 <= i < rules.len() ==> (#[trigger] rules[i]).alternatives.len() > 0 && alts_ok(
            rules[i].alternatives,
        ) && is_ident(rules[i].name) && rules[i].line >= 1
}

/// Rule and reference names are identifiers, and every line number is at
/// least 1.
pub open spec fn names_valid(g: Seq<RuleModel>) -> bool {
    &&& forall|i: int| 0 <= i < g.len() ==> is_ident((#[trigger] g[i]).name) && g[i].line >= 1
    &&& forall|i: int, a: int, p: int|
        0 <= i < g.len() && 0 <= a < g[i].alternatives.len() && 0 <= p
            < g[i].alternatives[a].parts.len() ==> (
        #[trigger] g[i].alternatives[a].parts[p] matches PartModel::Reference { name, line, .. }
            ==> is_ident(name) && line >= 1)
}

proof fn lemma_range_nonempty(lo: char, hi: int)
    requires
        (lo as u32) <= hi,
    ensures
        range_chars(lo as u32 as int, hi).len() > 0,
    decreases hi - lo as u32,
{
    if hi > lo as u32 {
        lemma_range_nonempty(lo, hi - 1);
    } else {
        assert(vstd::utf8::is_scalar(lo as u32));
    }
}

proof fn lemma_class_grows(content: Seq<char>, k: int, acc: Seq<char>)
    requires
        0 <= k,
    ensures
        class_from(content, k, acc) matches Ok(r) ==> r.len() >= acc.len() && (k < content.len()
            ==> r.len() > acc.len()),
    decreases content.len() - k,
{
    if k < content.len() {
        if k + 2 < content.len() && content[k + 1] == '-' && !(k == 0 && content[k] == '-') {
            if (content[k] as u32) <= (content[k + 2] as u32) {
                lemma_range_nonempty(content[k], content[k + 2] as u32 as int);
                lemma_class_grows(
                    content,
                    k + 3,
                    acc + range_chars(content[k] as u32 as int, content[k + 2] as u32 as int),
                );
            }
        } else {
            lemma_class_grows(content, k + 1, acc.push(content[k]));
        }
    }
}

proof fn lemma_parts_ok(
    text: Seq<char>,
    i: int,
    lit: Seq<char>,
    acc: Seq<PartModel>,
    off: nat,
    line_no: nat,
    raw: Seq<char>,
)
    requires
        classes_ok(acc),
        line_no >= 1,
    ensures
        parts_from(text, i, lit, acc, off, line_no, raw) matches Ok(ps) ==> classes_ok(ps),
    decreases text.len() - i,
{
    if i >= text.len() || i < 0 {
        assert(classes_ok(flush(acc, lit)));
    } else {
        let c = text[i];
        let col = off + blen(text.take(i)) + 1;
        if c == '<' {
            lemma_find_char_bound(text.skip(i + 1), '>');
            if let Some(k) = find_char(text.skip(i + 1), '>') {
                let j = i + 1 + k;
                let name = trim(text.subrange(i + 1, j));
                if name.len() > 0 && is_ident(name) {
                    let next = flush(acc, lit).push(
                        PartModel::Reference { name, line: line_no, column: col },
                    );
                    assert(classes_ok(next));
                    lemma_parts_ok(text, j + 1, seq![], next, off, line_no, raw);
                }
            }
        } else if c == '[' {
            lemma_find_char_bound(text.skip(i + 1), ']');
            if let Some(k) = find_char(text.skip(i + 1), ']') {
                let j = i + 1 + k;
                let content = text.subrange(i + 1, j);
                lemma_class_grows(content, 0, seq![]);
                if content.len() == 0 {
                } else if let Ok(cs) = class_from(content, 0, seq![]) {
                    let next = flush(acc, lit).push(PartModel::CharClass(cs));
                    assert(classes_ok(next));
                    lemma_parts_ok(text, j + 1, seq![], next, off, line_no, raw);
                }
            }
        } else if c != '>' {
            lemma_parts_ok(text, i + 1, lit.push(c), acc, off, line_no, raw);
        }
    }
}

proof fn lemma_alt_ok(seg: Seq<char>, off: nat, line_no: nat, raw: Seq<char>)
    requires
        line_no >= 1,
    ensures
        parse_alt(seg, off, line_no, raw) matches Ok(a) ==> 1 <= a.weight <= u32::MAX && classes_ok(
            a.parts,
        ),
{
    let t = trim(seg);
    let toff = off + blen(seg.take(lead_ws(seg) as int));
    if t.len() > 0 {
        if let Ok((text, w)) = split_weight(t, toff, line_no, raw) {
            lemma_parts_ok(text, 0, seq![], seq![], toff, line_no, raw);
        }
    }
}

proof fn lemma_alts_ok(body: Seq<char>, off: nat, acc: Seq<AltModel>, line_no: nat, raw: Seq<char>)
    requires
        alts_ok(acc),
        line_no >= 1,
    ensures
        parse_alts(body, off, acc, line_no, raw) matches Ok(alts) ==> alts_ok(alts) && alts.len()
            > acc.len(),
    decreases body.len(),
{
    lemma_find_char_bound(body, '|');
    match find_char(body, '|') {
        None => {
            lemma_alt_ok(body, off, line_no, raw);
        },
        Some(k) => {
            lemma_alt_ok(body.take(k as int), off, line_no, raw);
            if let Ok(a) = parse_alt(body.take(k as int), off, line_no, raw) {
                lemma_alts_ok(
                    body.skip((k + 1) as int),
                    off + blen(body.take(k as int)) + 1,
                    acc.push(a),
                    line_no,
                    raw,
                );
            }
        },
    }
}

proof fn lemma_find_rule_absent(rules: Seq<RuleModel>, name: Seq<char>)
    ensures
        find_rule(rules, name) is None ==> forall|j: int| 0 <= j < rules.len() ==> rules[j].name != name,
        find_rule(rules, name) is None <==> !has_rule(rules, name),
    decreases rules.len(),
{
    if rules.len() > 0 {
        lemma_find_rule_absent(rules.drop_first(), name);
        if find_rule(rules, name) is None {
            assert forall|j: int| 0 <= j < rules.len() implies rules[j].name != name by {
                if j > 0 {
                    assert(rules[j] == rules.drop_first()[j - 1]);
                }
            }
        } else {
            if rules[0].name != name {
                let j = choose|j: int| 0 <= j < rules.drop_first().len() && rules.drop_first()[j].name == name;
                assert(rules[j + 1].name == name);
            }
        }
    }
}

proof fn lemma_lines_ok(lines: Seq<Seq<char>>, i: int, rules: Seq<RuleModel>)
    requires
        rules_ok(rules),
    ensures
        parse_lines(lines, i, rules) matches Ok(rs) ==> rules_ok(rs),
    decreases lines.len() - i,
{
    if 0 <= i < lines.len() {
        let raw = lines[i];
        let line_no = (i + 1) as nat;
        let t = trim_start(raw);
        let indent = blen(raw.take(lead_ws(raw) as int));
        if !(t.len() == 0 || t[0] == '#') {
            if let Some(eq) = find_char(t, '=') {
                let name = trim(t.take(eq as int));
                lemma_find_rule_absent(rules, name);
                lemma_alts_ok(t.skip((eq + 1) as int), indent + blen(t.take(eq as int)) + 1, seq![], line_no, raw);
            }
        }
        match line_outcome(raw, line_no, rules) {
            Ok(None) => lemma_lines_ok(lines, i + 1, rules),
            Ok(Some(r)) => {
                assert(rules_ok(rules.push(r)));
                lemma_lines_ok(lines, i + 1, rules.push(r));
            },
            Err(_) => {},
        }
    }
}

proof fn lemma_defined_parts(ps: Seq<PartModel>, rules: Seq<RuleModel>)
    requires
        undefined_in_parts(ps, rules) is None,
    ensures
        forall|p: int|
            0 <= p < ps.len() ==> (#[trigger] ps[p] matches PartModel::Reference { name, .. }
                ==> has_rule(rules, name)),
    decreases ps.len(),
{
    if ps.len() > 0 {
        lemma_defined_parts(ps.drop_first(), rules);
        assert forall|p: int| 0 < p < ps.len() implies (#[trigger] ps[p] matches PartModel::Reference {
            name,
            ..
        } ==> has_rule(rules, name)) by {
            assert(ps[p] == ps.drop_first()[p - 1]);
        }
    }
}

proof fn lemma_defined_alts(alts: Seq<AltModel>, rules: Seq<RuleModel>)
    requires
        undefined_in_alts(alts, rules) is None,
    ensures
        forall|a: int, p: int|
            0 <= a < alts.len() && 0 <= p < alts[a].parts.len() ==> (
            #[trigger] alts[a].parts[p] matches PartModel::Reference { name, .. } ==> has_rule(
                rules,
                name,
            )),
    decreases alts.len(),
{
    if alts.len() > 0 {
        lemma_defined_parts(alts[0].parts, rules);
        lemma_defined_alts(alts.drop_first(), rules);
        assert forall|a: int, p: int|
            0 <= a < alts.len() && 0 <= p < alts[a].parts.len() implies (
            #[trigger] alts[a].parts[p] matches PartModel::Reference { name, .. } ==> has_rule(
                rules,
                name,
            )) by {
            if a > 0 {
                assert(alts[a] == alts.drop_first()[a - 1]);
            }
        }
    }
}

proof fn lemma_defined_rules(rs: Seq<RuleModel>, rules: Seq<RuleModel>)
    requires
        undefined_in_rules(rs, rules) is None,
    ensures
        forall|i: int, a: int, p: int|
            0 <= i < rs.len() && 0 <= a < rs[i].alternatives.len() && 0 <= p
                < rs[i].alternatives[a].parts.len() ==> (
            #[trigger] rs[i].alternatives[a].parts[p] matches PartModel::Reference { name, .. }
                ==> has_rule(rules, name)),
    decreases rs.len(),
{
    if rs.len() > 0 {
        lemma_defined_alts(rs[0].alternatives, rules);
        lemma_defined_rules(rs.drop_first(), rules);
        assert forall|i: int, a: int, p: int|
            0 <= i < rs.len() && 0 <= a < rs[i].alternatives.len() && 0 <= p
                < rs[i].alternatives[a].parts.len() implies (
            #[trigger] rs[i].alternatives[a].parts[p] matches PartModel::Reference { name, .. }
                ==> has_rule(rules, name)) by {
            if i > 0 {
                assert(rs[i] == rs.drop_first()[i - 1]);
            }
        }
    }
}

/// Law: every grammar that parsing accepts has at least one rule and is
/// well formed — unique rule names, alternatives in every rule, weights of
/// at least 1, non-empty character classes, and every reference naming a
/// rule — which is all that generation needs; and every rule and reference
/// name is an identifier, with a line number of at least 1.
pub proof fn lemma_parsed_grammar_wf(source: Seq<char>)
    ensures
        grammar_of(source) matches Ok(g) ==> g.len() > 0 && grammar_wf(g) && names_valid(g),
{
    let lines = lines_of(source);
    lemma_lines_ok(lines, 0, seq![]);
    if let Ok(rules) = parse_lines(lines, 0, seq![]) {
        if rules.len() > 0 && undefined_in_rules(rules, rules) is None {
            lemma_defined_rules(rules, rules);
            let g = rules;
            assert forall|i: int, a: int|
                0 <= i < g.len() && 0 <= a < g[i].alternatives.len() implies 1 <= (
                #[trigger] g[i].alternatives[a]).weight <= u32::MAX by {
                assert(alts_ok(g[i].alternatives));
            }
            assert forall|i: int, a: int, p: int|
                0 <= i < g.len() && 0 <= a < g[i].alternatives.len() && 0 <= p
                    < g[i].alternatives[a].parts.len() implies part_ok(
                g,
                #[trigger] g[i].alternatives[a].parts[p],
            ) by {
                assert(alts_ok(g[i].alternatives));
                assert(classes_ok(g[i].alternatives[a].parts));
            }
            assert forall|i: int, a: int, p: int|
                0 <= i < g.len() && 0 <= a < g[i].alternatives.len() && 0 <= p
                    < g[i].alternatives[a].parts.len() implies (
            #[trigger] g[i].alternatives[a].parts[p] matches PartModel::Reference { name, line, .. }
                ==> is_ident(name) && line >= 1) by {
                assert(alts_ok(g[i].alternatives));
                assert(classes_ok(g[i].alternatives[a].parts));
            }
        }
    }
}


// ---------------------------------------------------------------------------
// Where errors point
// ---------------------------------------------------------------------------

/// Every reference among `ps` has a position that `ok` accepts.
pub open spec fn parts_refs(ps: Seq<PartModel>, ok: spec_fn(nat, nat) -> bool) -> bool {
    forall|p: int|
        0 <= p < ps.len() ==> (#[trigger] ps[p] matches PartModel::Reference { line, column, .. }
            ==> ok(line, column))
}

pub open spec fn alts_refs(alts: Seq<AltModel>, ok: spec_fn(nat, nat) -> bool) -> bool {
    forall|a: int| 0 <= a < alts.len() ==> parts_refs(#[trigger] alts[a].parts, ok)
}

pub open spec fn rules_refs(rules: Seq<RuleModel>, ok: spec_fn(nat, nat) -> bool) -> bool {
    forall|r: int| 0 <= r < rules.len() ==> alts_refs(#[trigger] rules[r].alternatives, ok)
}

/// A position on line `line_no`, on a character of a line of `w` bytes.
pub open spec fn on_line(line_no: nat, w: nat) -> spec_fn(nat, nat) -> bool {
    |l: nat, c: nat| l == line_no && 1 <= c <= w
}

/// A position on a character of one of `lines`.
pub open spec fn in_lines(lines: Seq<Seq<char>>) -> spec_fn(nat, nat) -> bool {
    |l: nat, c: nat| 1 <= l <= lines.len() && 1 <= c <= blen(lines[l - 1])
}

/// An error on line `line_no` (whose text is `raw`), at a column from the
/// first character to just after the last.
pub open spec fn error_on_line(e: ErrorModel, line_no: nat, raw: Seq<char>) -> bool {
    &&& e.line == line_no
    &&& e.line_text == raw
    &&& 1 <= e.column <= blen(raw) + 1
}

/// The error points into `source`: its line is a line of the file (line 1
/// of an empty file), its text is that line, and its column is on that
/// line or just after its end.
pub open spec fn error_in_source(source: Seq<char>, e: ErrorModel) -> bool {
    let lines = lines_of(source);
    &&& 1 <= e.line
    &&& e.line <= if lines.len() == 0 {
        1
    } else {
        lines.len()
    }
    &&& e.line_text == line_text(lines, e.line)
    &&& 1 <= e.column <= blen(e.line_text) + 1
}

proof fn lemma_class_err(content: Seq<char>, k: int, acc: Seq<char>)
    requires
        0 <= k,
    ensures
        class_from(content, k, acc) matches Err(q) ==> k <= q && q + 2 < content.len(),
    decreases content.len() - k,
{
    if k < content.len() {
        if k + 2 < content.len() && content[k + 1] == '-' && !(k == 0 && content[k] == '-') {
            if (content[k] as u32) <= (content[k + 2] as u32) {
                lemma_class_err(
                    content,
                    k + 3,
                    acc + range_chars(content[k] as u32 as int, content[k + 2] as u32 as int),
                );
            }
        } else {
            lemma_class_err(content, k + 1, acc.push(content[k]));
        }
    }
}

/// The column of the character at `i` of `text`, and of the one after it,
/// stay within `off + blen(text)`.
proof fn lemma_char_col(text: Seq<char>, i: int)
    requires
        0 <= i < text.len(),
    ensures
        blen(text.take(i)) + cwidth(text[i]) == blen(text.take(i + 1)),
        blen(text.take(i)) + 1 <= blen(text.take(i + 1)),
        blen(text.take(i + 1)) <= blen(text),
        (text[i] as u32) <= 0x7F ==> blen(text.take(i + 1)) == blen(text.take(i)) + 1,
{
    lemma_blen_step(text, i);
    lemma_cwidth(text[i]);
    lemma_blen_subrange(text, i + 1, i + 1);
}

proof fn lemma_parts_loc(
    text: Seq<char>,
    i: int,
    lit: Seq<char>,
    acc: Seq<PartModel>,
    off: nat,
    line_no: nat,
    raw: Seq<char>,
)
    requires
        0 <= i,
        off + blen(text) <= blen(raw),
        parts_refs(acc, on_line(line_no, blen(raw))),
    ensures
        match parts_from(text, i, lit, acc, off, line_no, raw) {
            Ok(ps) => parts_refs(ps, on_line(line_no, blen(raw))),
            Err(e) => error_on_line(e, line_no, raw),
        },
    decreases text.len() - i,
{
    let ok = on_line(line_no, blen(raw));
    if i >= text.len() {
        assert(parts_refs(flush(acc, lit), ok));
    } else {
        let c = text[i];
        let col = off + blen(text.take(i)) + 1;
        lemma_char_col(text, i);
        if c == '<' {
            lemma_find_char_bound(text.skip(i + 1), '>');
            if let Some(k) = find_char(text.skip(i + 1), '>') {
                let j = i + 1 + k;
                let name = trim(text.subrange(i + 1, j));
                let next = flush(acc, lit).push(
                    PartModel::Reference { name, line: line_no, column: col },
                );
                assert(parts_refs(next, ok));
                lemma_parts_loc(text, j + 1, seq![], next, off, line_no, raw);
            }
        } else if c == '[' {
            lemma_find_char_bound(text.skip(i + 1), ']');
            if let Some(k) = find_char(text.skip(i + 1), ']') {
                let j = i + 1 + k;
                let content = text.subrange(i + 1, j);
                lemma_class_err(content, 0, seq![]);
                match class_from(content, 0, seq![]) {
                    Ok(cs) => {
                        let next = flush(acc, lit).push(PartModel::CharClass(cs));
                        assert(parts_refs(next, ok));
                        lemma_parts_loc(text, j + 1, seq![], next, off, line_no, raw);
                    },
                    Err(q) => {
                        lemma_char_col(text, i + 1 + q);
                    },
                }
            }
        } else if c != '>' {
            lemma_parts_loc(text, i + 1, lit.push(c), acc, off, line_no, raw);
        }
    }
}

proof fn lemma_trail_digits_bound(s: Seq<char>)
    ensures
        trail_digits(s) <= s.len(),
    decreases s.len(),
{
    if s.len() > 0 {
        lemma_trail_digits_bound(s.drop_last());
    }
}

proof fn lemma_split_weight_loc(t: Seq<char>, off: nat, line_no: nat, raw: Seq<char>)
    requires
        off + blen(t) <= blen(raw),
    ensures
        match split_weight(t, off, line_no, raw) {
            Ok((text, w)) => blen(text) <= blen(t),
            Err(e) => error_on_line(e, line_no, raw),
        },
{
    lemma_trail_digits_bound(t);
    let ds = t.len() - trail_digits(t);
    if trail_digits(t) > 0 && ds > 0 {
        lemma_char_col(t, ds);
        lemma_blen_subrange(t, ds - 1, ds - 1);
    }
}

proof fn lemma_trim_blen(seg: Seq<char>)
    ensures
        blen(seg.take(lead_ws(seg) as int)) + blen(trim(seg)) <= blen(seg),
{
    lemma_lead_ws_bound(seg);
    let lw = lead_ws(seg) as int;
    let rest = seg.skip(lw);
    lemma_blen_split(seg, lw);
    lemma_trail_ws_bound(rest);
    lemma_blen_subrange(rest, rest.len() - trail_ws(rest), rest.len() - trail_ws(rest));
}

proof fn lemma_alt_loc(seg: Seq<char>, off: nat, line_no: nat, raw: Seq<char>)
    requires
        off + blen(seg) <= blen(raw),
    ensures
        match parse_alt(seg, off, line_no, raw) {
            Ok(a) => parts_refs(a.parts, on_line(line_no, blen(raw))),
            Err(e) => error_on_line(e, line_no, raw),
        },
{
    let t = trim(seg);
    let toff = off + blen(seg.take(lead_ws(seg) as int));
    lemma_trim_blen(seg);
    if t.len() > 0 {
        lemma_split_weight_loc(t, toff, line_no, raw);
        if let Ok((text, w)) = split_weight(t, toff, line_no, raw) {
            lemma_parts_loc(text, 0, seq![], seq![], toff, line_no, raw);
        }
    }
}

proof fn lemma_alts_loc(body: Seq<char>, off: nat, acc: Seq<AltModel>, line_no: nat, raw: Seq<char>)
    requires
        off + blen(body) <= blen(raw),
        alts_refs(acc, on_line(line_no, blen(raw))),
    ensures
        match parse_alts(body, off, acc, line_no, raw) {
            Ok(alts) => alts_refs(alts, on_line(line_no, blen(raw))),
            Err(e) => error_on_line(e, line_no, raw),
        },
    decreases body.len(),
{
    lemma_find_char_bound(body, '|');
    match find_char(body, '|') {
        None => {
            lemma_alt_loc(body, off, line_no, raw);
            if let Ok(a) = parse_alt(body, off, line_no, raw) {
                assert(alts_refs(acc.push(a), on_line(line_no, blen(raw))));
            }
        },
        Some(k) => {
            let k = k as int;
            lemma_blen_subrange(body, k, k);
            lemma_char_col(body, k);
            lemma_blen_split(body, k + 1);
            lemma_alt_loc(body.take(k), off, line_no, raw);
            if let Ok(a) = parse_alt(body.take(k), off, line_no, raw) {
                assert(alts_refs(acc.push(a), on_line(line_no, blen(raw))));
                lemma_alts_loc(
                    body.skip(k + 1),
                    off + blen(body.take(k)) + 1,
                    acc.push(a),
                    line_no,
                    raw,
                );
            }
        },
    }
}

proof fn lemma_line_loc(raw: Seq<char>, line_no: nat, rules: Seq<RuleModel>)
    ensures
        match line_outcome(raw, line_no, rules) {
            Ok(Some(r)) => alts_refs(r.alternatives, on_line(line_no, blen(raw))),
            Ok(None) => true,
            Err(e) => error_on_line(e, line_no, raw),
        },
{
    lemma_lead_ws_bound(raw);
    let lw = lead_ws(raw) as int;
    let t = trim_start(raw);
    let indent = blen(raw.take(lw));
    lemma_blen_split(raw, lw);
    if !(t.len() == 0 || t[0] == '#') {
        lemma_find_char_bound(t, '=');
        if let Some(eq) = find_char(t, '=') {
            let eq = eq as int;
            lemma_char_col(t, eq);
            lemma_blen_split(t, eq + 1);
            lemma_alts_loc(t.skip(eq + 1), indent + blen(t.take(eq)) + 1, seq![], line_no, raw);
        }
    }
}

proof fn lemma_lines_loc(lines: Seq<Seq<char>>, i: int, rules: Seq<RuleModel>)
    requires
        0 <= i,
        rules_refs(rules, in_lines(lines)),
    ensures
        match parse_lines(lines, i, rules) {
            Ok(rs) => rules_refs(rs, in_lines(lines)),
            Err(e) => 1 <= e.line <= lines.len() && error_on_line(e, e.line, lines[e.line - 1]),
        },
    decreases lines.len() - i,
{
    if i < lines.len() {
        let line_no = (i + 1) as nat;
        lemma_line_loc(lines[i], line_no, rules);
        match line_outcome(lines[i], line_no, rules) {
            Ok(None) => lemma_lines_loc(lines, i + 1, rules),
            Ok(Some(r)) => {
                let ok = in_lines(lines);
                let here = on_line(line_no, blen(lines[i]));
                assert forall|a: int| 0 <= a < r.alternatives.len() implies parts_refs(
                    #[trigger] r.alternatives[a].parts,
                    ok,
                ) by {
                    let ps = r.alternatives[a].parts;
                    assert(parts_refs(ps, here));
                    assert forall|p: int| 0 <= p < ps.len() implies (
                    #[trigger] ps[p] matches PartModel::Reference { line, column, .. } ==> ok(
                        line,
                        column,
                    )) by {
                        if let PartModel::Reference { line, column, .. } = ps[p] {
                            assert(here(line, column));
                            assert(lines[line - 1] == lines[i]);
                        }
                    }
                }
                assert(rules_refs(rules.push(r), ok)) by {
                    assert forall|q: int| 0 <= q < rules.push(r).len() implies alts_refs(
                        #[trigger] rules.push(r)[q].alternatives,
                        ok,
                    ) by {
                        if q < rules.len() {
                            assert(rules.push(r)[q] == rules[q]);
                        }
                    }
                }
                lemma_lines_loc(lines, i + 1, rules.push(r));
            },
            Err(e) => {},
        }
    }
}

proof fn lemma_undefined_loc(rs: Seq<RuleModel>, rules: Seq<RuleModel>, ok: spec_fn(nat, nat) -> bool)
    requires
        rules_refs(rs, ok),
    ensures
        undefined_in_rules(rs, rules) matches Some((n, l, c)) ==> ok(l, c),
    decreases rs.len(),
{
    if rs.len() > 0 {
        lemma_undefined_alts_loc(rs[0].alternatives, rules, ok);
        assert(rules_refs(rs.drop_first(), ok)) by {
            assert forall|r: int| 0 <= r < rs.drop_first().len() implies alts_refs(
                #[trigger] rs.drop_first()[r].alternatives,
                ok,
            ) by {
                assert(rs.drop_first()[r] == rs[r + 1]);
            }
        }
        lemma_undefined_loc(rs.drop_first(), rules, ok);
    }
}

proof fn lemma_undefined_alts_loc(
    alts: Seq<AltModel>,
    rules: Seq<RuleModel>,
    ok: spec_fn(nat, nat) -> bool,
)
    requires
        alts_refs(alts, ok),
    ensures
        undefined_in_alts(alts, rules) matches Some((n, l, c)) ==> ok(l, c),
    decreases alts.len(),
{
    if alts.len() > 0 {
        lemma_undefined_parts_loc(alts[0].parts, rules, ok);
        assert(alts_refs(alts.drop_first(), ok)) by {
            assert forall|a: int| 0 <= a < alts.drop_first().len() implies parts_refs(
                #[trigger] alts.drop_first()[a].parts,
                ok,
            ) by {
                assert(alts.drop_first()[a] == alts[a + 1]);
            }
        }
        lemma_undefined_alts_loc(alts.drop_first(), rules, ok);
    }
}

proof fn lemma_undefined_parts_loc(
    ps: Seq<PartModel>,
    rules: Seq<RuleModel>,
    ok: spec_fn(nat, nat) -> bool,
)
    requires
        parts_refs(ps, ok),
    ensures
        undefined_in_parts(ps, rules) matches Some((n, l, c)) ==> ok(l, c),
    decreases ps.len(),
{
    if ps.len() > 0 {
        assert(parts_refs(ps.drop_first(), ok)) by {
            assert forall|p: int| 0 <= p < ps.drop_first().len() implies (
            #[trigger] ps.drop_first()[p] matches PartModel::Reference { line, column, .. } ==> ok(
                line,
                column,
            )) by {
                assert(ps.drop_first()[p] == ps[p + 1]);
            }
        }
        lemma_undefined_parts_loc(ps.drop_first(), rules, ok);
        assert(ps[0] matches PartModel::Reference { line, column, .. } ==> ok(line, column));
    }
}

/// Law: every error that parsing reports points into the file: its line is
/// a line of the file (line 1 of an empty file), it carries the text of that
/// line, and its column is on that line's characters or just past its end.
pub proof fn lemma_error_points_into_source(source: Seq<char>)
    ensures
        grammar_of(source) matches Err(e) ==> error_in_source(source, e),
{
    let lines = lines_of(source);
    assert(rules_refs(Seq::<RuleModel>::empty(), in_lines(lines)));
    lemma_lines_loc(lines, 0, seq![]);
    if let Ok(rules) = parse_lines(lines, 0, seq![]) {
        lemma_undefined_loc(rules, rules, in_lines(lines));
        if rules.len() == 0 && lines.len() > 0 {
            assert(1 <= blen(lines[0]) + 1);
        }
    }
}


// ---------------------------------------------------------------------------
// The shape of an alternative's parts
// ---------------------------------------------------------------------------

/// No literal part is empty and no two literal parts are adjacent.
pub open spec fn parts_shaped(ps: Seq<PartModel>) -> bool {
    &&& forall|p: int|
        0 <= p < ps.len() ==> (#[trigger] ps[p] matches PartModel::Literal(t) ==> t.len() > 0)
    &&& forall|p: int|
        0 <= p && p + 1 < ps.len() ==> !((#[trigger] ps[p] is Literal) && ps[p + 1] is Literal)
}

/// Every reference among `ps` names an identifier, is on line `line_no`,
/// and its column is that of a `<` of `text` (which starts at byte offset
/// `off` of its line).
pub open spec fn refs_at_brackets(ps: Seq<PartModel>, text: Seq<char>, off: nat, line_no: nat) -> bool {
    forall|p: int|
        0 <= p < ps.len() ==> (#[trigger] ps[p] matches PartModel::Reference { name, line, column }
            ==> is_ident(name) && line == line_no && exists|j: int|
            0 <= j < text.len() && text[j] == '<' && column == off + blen(
                #[trigger] text.take(j),
            ) + 1)
}

proof fn lemma_parts_shape(
    text: Seq<char>,
    i: int,
    lit: Seq<char>,
    acc: Seq<PartModel>,
    off: nat,
    line_no: nat,
    raw: Seq<char>,
)
    requires
        0 <= i,
        parts_shaped(acc),
        acc.len() > 0 ==> !(acc.last() is Literal),
        refs_at_brackets(acc, text, off, line_no),
    ensures
        parts_from(text, i, lit, acc, off, line_no, raw) matches Ok(ps) ==> parts_shaped(ps)
            && refs_at_brackets(ps, text, off, line_no),
    decreases text.len() - i,
{
    if i >= text.len() {
        assert(parts_shaped(flush(acc, lit)));
        assert(refs_at_brackets(flush(acc, lit), text, off, line_no));
    } else {
        let c = text[i];
        let col = off + blen(text.take(i)) + 1;
        let f = flush(acc, lit);
        assert(parts_shaped(f));
        assert(refs_at_brackets(f, text, off, line_no));
        if c == '<' {
            lemma_find_char_bound(text.skip(i + 1), '>');
            if let Some(k) = find_char(text.skip(i + 1), '>') {
                let j = i + 1 + k;
                let name = trim(text.subrange(i + 1, j));
                if name.len() > 0 && is_ident(name) {
                    let next = f.push(PartModel::Reference { name, line: line_no, column: col });
                    assert(parts_shaped(next));
                    assert(refs_at_brackets(next, text, off, line_no)) by {
                        assert forall|p: int| 0 <= p < next.len() implies (
                        #[trigger] next[p] matches PartModel::Reference { name, line, column }
                            ==> is_ident(name) && line == line_no && exists|j: int|
                            0 <= j < text.len() && text[j] == '<' && column == off + blen(
                                #[trigger] text.take(j),
                            ) + 1) by {
                            if p == f.len() {
                                assert(text[i] == '<' && col == off + blen(text.take(i)) + 1);
                            } else {
                                assert(next[p] == f[p]);
                            }
                        }
                    }
                    lemma_parts_shape(text, j + 1, seq![], next, off, line_no, raw);
                }
            }
        } else if c == '[' {
            lemma_find_char_bound(text.skip(i + 1), ']');
            if let Some(k) = find_char(text.skip(i + 1), ']') {
                let j = i + 1 + k;
                let content = text.subrange(i + 1, j);
                if let Ok(cs) = class_from(content, 0, seq![]) {
                    let next = f.push(PartModel::CharClass(cs));
                    assert(parts_shaped(next));
                    assert(refs_at_brackets(next, text, off, line_no)) by {
                        assert forall|p: int| 0 <= p < next.len() implies (
                        #[trigger] next[p] matches PartModel::Reference { name, line, column }
                            ==> is_ident(name) && line == line_no && exists|j: int|
                            0 <= j < text.len() && text[j] == '<' && column == off + blen(
                                #[trigger] text.take(j),
                            ) + 1) by {
                            if p < f.len() {
                                assert(next[p] == f[p]);
                            }
                        }
                    }
                    lemma_parts_shape(text, j + 1, seq![], next, off, line_no, raw);
                }
            }
        } else if c != '>' {
            lemma_parts_shape(text, i + 1, lit.push(c), acc, off, line_no, raw);
        }
    }
}

/// Law: the parts of an alternative have no empty and no adjacent literals,
/// and every reference names an identifier on the alternative's line, with
/// the column of its `<`.
pub proof fn lemma_parts_structure(text: Seq<char>, off: nat, line_no: nat, raw: Seq<char>)
    ensures
        parts_from(text, 0, seq![], seq![], off, line_no, raw) matches Ok(ps) ==> parts_shaped(ps)
            && refs_at_brackets(ps, text, off, line_no),
{
    lemma_parts_shape(text, 0, seq![], seq![], off, line_no, raw);
}

/// Parts written back as text: a literal as it stands, a reference as
/// `<name>`, a class as its characters in brackets.
pub open spec fn written(ps: Seq<PartModel>) -> Seq<char>
    decreases ps.len(),
{
    if ps.len() == 0 {
        seq![]
    } else {
        written(ps.drop_last()) + match ps.last() {
            PartModel::Literal(t) => t,
            PartModel::Reference { name, .. } => seq!['<'] + name + seq!['>'],
            PartModel::CharClass(cs) => seq!['['] + cs + seq![']'],
        }
    }
}

/// Text with no class, no whitespace just inside a `<`, and none just
/// before a `>`.
pub open spec fn plain_text(text: Seq<char>) -> bool {
    &&& forall|j: int| 0 <= j < text.len() ==> #[trigger] text[j] != '['
    &&& forall|j: int| 0 <= j && j + 1 < text.len() && #[trigger] text[j] == '<' ==> !is_ws(text[j + 1])
    &&& forall|j: int| 1 <= j < text.len() && #[trigger] text[j] == '>' ==> !is_ws(text[j - 1])
}

proof fn lemma_written_push(ps: Seq<PartModel>, p: PartModel)
    ensures
        written(ps.push(p)) == written(ps) + written(seq![p]),
{
    assert(ps.push(p).drop_last() =~= ps);
    assert(seq![p].drop_last() =~= Seq::<PartModel>::empty());
    let tail = match p {
        PartModel::Literal(t) => t,
        PartModel::Reference { name, .. } => seq!['<'] + name + seq!['>'],
        PartModel::CharClass(cs) => seq!['['] + cs + seq![']'],
    };
    assert(written(seq![p]) == written(seq![p].drop_last()) + tail);
    assert(written(Seq::<PartModel>::empty()) == Seq::<char>::empty());
    assert(written(seq![p]) =~= tail);
}

proof fn lemma_flush_written(acc: Seq<PartModel>, lit: Seq<char>)
    ensures
        written(flush(acc, lit)) == written(acc) + lit,
{
    if lit.len() > 0 {
        let p = PartModel::Literal(lit);
        lemma_written_push(acc, p);
        assert(seq![p].drop_last() =~= Seq::<PartModel>::empty());
        assert(written(seq![p]) == written(seq![p].drop_last()) + lit);
        assert(written(seq![p]) =~= lit);
    } else {
        assert(written(acc) + lit =~= written(acc));
    }
}

proof fn lemma_round_trip(
    text: Seq<char>,
    i: int,
    lit: Seq<char>,
    acc: Seq<PartModel>,
    off: nat,
    line_no: nat,
    raw: Seq<char>,
)
    requires
        0 <= i <= text.len(),
        plain_text(text),
        written(acc) + lit == text.take(i),
    ensures
        parts_from(text, i, lit, acc, off, line_no, raw) matches Ok(ps) ==> written(ps) == text,
    decreases text.len() - i,
{
    lemma_flush_written(acc, lit);
    if i >= text.len() {
        assert(text.take(i) =~= text);
    } else {
        let c = text[i];
        let col = off + blen(text.take(i)) + 1;
        if c == '<' {
            lemma_find_char_bound(text.skip(i + 1), '>');
            if let Some(k) = find_char(text.skip(i + 1), '>') {
                let j = i + 1 + k;
                let inner = text.subrange(i + 1, j);
                let name = trim(inner);
                assert(text[j] == text.skip(i + 1)[k as int]);
                if name.len() > 0 && is_ident(name) {
                    assert(inner.len() > 0) by {
                        if inner.len() == 0 {
                            assert(trim(inner) =~= Seq::<char>::empty());
                        }
                    }
                    assert(!is_ws(inner[0]));
                    assert(lead_ws(inner) == 0);
                    assert(inner.skip(0) =~= inner);
                    assert(!is_ws(inner.last()));
                    assert(trail_ws(inner) == 0);
                    assert(name =~= inner);
                    let p = PartModel::Reference { name, line: line_no, column: col };
                    let next = flush(acc, lit).push(p);
                    lemma_written_push(flush(acc, lit), p);
                    assert(written(seq![p]) == written(seq![p].drop_last()) + (seq!['<'] + name
                        + seq!['>']));
                    assert(written(seq![p].drop_last()) =~= Seq::<char>::empty());
                    assert(written(next) + Seq::<char>::empty() =~= text.take(j + 1));
                    lemma_round_trip(text, j + 1, seq![], next, off, line_no, raw);
                }
            }
        } else if c != '>' && c != '[' {
            assert(written(acc) + lit.push(c) =~= text.take(i + 1));
            lemma_round_trip(text, i + 1, lit.push(c), acc, off, line_no, raw);
        }
    }
}

/// Law: writing back the parts of an alternative without classes, and
/// without whitespace just inside its `<` and `>`, gives its text.
pub proof fn lemma_parts_round_trip(text: Seq<char>, off: nat, line_no: nat, raw: Seq<char>)
    requires
        plain_text(text),
    ensures
        parts_from(text, 0, seq![], seq![], off, line_no, raw) matches Ok(ps) ==> written(ps) == text,
{
    assert(written(Seq::<PartModel>::empty()) + Seq::<char>::empty() =~= text.take(0));
    lemma_round_trip(text, 0, seq![], seq![], off, line_no, raw);
}


// ---------------------------------------------------------------------------
// Which rules a file defines
// ---------------------------------------------------------------------------

/// Line `l` holds a rule: it is neither blank nor a comment.
pub open spec fn is_rule_line(l: Seq<char>) -> bool {
    trim_start(l).len() > 0 && trim_start(l)[0] != '#'
}

/// The numbers (counting from 1) of the lines of `lines[i..]` that hold rules.
pub open spec fn rule_lines(lines: Seq<Seq<char>>, i: int) -> Seq<nat>
    decreases lines.len() - i,
{
    if i >= lines.len() || i < 0 {
        seq![]
    } else {
        (if is_rule_line(lines[i]) {
            seq![(i + 1) as nat]
        } else {
            seq![]
        }) + rule_lines(lines, i + 1)
    }
}

/// The name that rule line `l` defines: its text before the first `=`,
/// trimmed.
pub open spec fn defined_name(l: Seq<char>) -> Seq<char> {
    let t = trim_start(l);
    match find_char(t, '=') {
        Some(eq) => trim(t.take(eq as int)),
        None => seq![],
    }
}

/// The body of rule line `l`: its text after the first `=`.
pub open spec fn defined_body(l: Seq<char>) -> Seq<char> {
    let t = trim_start(l);
    match find_char(t, '=') {
        Some(eq) => t.skip((eq + 1) as int),
        None => seq![],
    }
}

proof fn lemma_count_concat(a: Seq<char>, b: Seq<char>, c: char)
    ensures
        count_char(a + b, c) == count_char(a, c) + count_char(b, c),
    decreases b.len(),
{
    if b.len() == 0 {
        assert(a + b =~= a);
    } else {
        assert((a + b).drop_last() =~= a + b.drop_last());
        lemma_count_concat(a, b.drop_last(), c);
    }
}

proof fn lemma_count_none(a: Seq<char>, c: char)
    requires
        forall|j: int| 0 <= j < a.len() ==> a[j] != c,
    ensures
        count_char(a, c) == 0,
    decreases a.len(),
{
    if a.len() > 0 {
        lemma_count_none(a.drop_last(), c);
    }
}

proof fn lemma_alts_count(body: Seq<char>, off: nat, acc: Seq<AltModel>, line_no: nat, raw: Seq<char>)
    ensures
        parse_alts(body, off, acc, line_no, raw) matches Ok(alts) ==> alts.len() == acc.len()
            + count_char(body, '|') + 1,
    decreases body.len(),
{
    lemma_find_char_bound(body, '|');
    match find_char(body, '|') {
        None => {
            lemma_count_none(body, '|');
        },
        Some(k) => {
            let k = k as int;
            let head = body.take(k);
            let rest = body.skip(k + 1);
            assert(body =~= (head + seq!['|']) + rest);
            lemma_count_concat(head + seq!['|'], rest, '|');
            lemma_count_concat(head, seq!['|'], '|');
            lemma_count_none(head, '|');
            assert(seq!['|'].drop_last() =~= Seq::<char>::empty());
            assert(seq!['|'].last() == '|');
            assert(count_char(Seq::<char>::empty(), '|') == 0);
            assert(count_char(seq!['|'], '|') == 1);
            assert(count_char(body, '|') == count_char(rest, '|') + 1);
            if let Ok(a) = parse_alt(head, off, line_no, raw) {
                lemma_alts_count(rest, off + blen(head) + 1, acc.push(a), line_no, raw);
            }
        },
    }
}

/// Rule `r` is the one that line `n` of `lines` defines.
pub open spec fn rule_from_line(r: RuleModel, lines: Seq<Seq<char>>, n: nat) -> bool {
    &&& 1 <= n <= lines.len()
    &&& r.line == n
    &&& r.name == defined_name(lines[n - 1])
    &&& r.alternatives.len() == count_char(defined_body(lines[n - 1]), '|') + 1
}

proof fn lemma_line_rule(raw: Seq<char>, line_no: nat, rules: Seq<RuleModel>)
    ensures
        line_outcome(raw, line_no, rules) matches Ok(None) ==> !is_rule_line(raw),
        line_outcome(raw, line_no, rules) matches Ok(Some(r)) ==> is_rule_line(raw) && r.line
            == line_no && r.name == defined_name(raw) && r.alternatives.len() == count_char(
            defined_body(raw),
            '|',
        ) + 1,
{
    let t = trim_start(raw);
    if !(t.len() == 0 || t[0] == '#') {
        if let Some(eq) = find_char(t, '=') {
            lemma_alts_count(
                t.skip((eq + 1) as int),
                blen(raw.take(lead_ws(raw) as int)) + blen(t.take(eq as int)) + 1,
                seq![],
                line_no,
                raw,
            );
        }
    }
}

proof fn lemma_lines_rules(lines: Seq<Seq<char>>, i: int, rules: Seq<RuleModel>)
    requires
        0 <= i,
    ensures
        parse_lines(lines, i, rules) matches Ok(rs) ==> {
            let rl = rule_lines(lines, i);
            &&& rs.len() == rules.len() + rl.len()
            &&& forall|k: int| 0 <= k < rules.len() ==> rs[k] == rules[k]
            &&& forall|k: int|
                0 <= k < rl.len() ==> rule_from_line(#[trigger] rs[rules.len() + k], lines, rl[k])
        },
    decreases lines.len() - i,
{
    if i < lines.len() {
        let line_no = (i + 1) as nat;
        lemma_line_rule(lines[i], line_no, rules);
        match line_outcome(lines[i], line_no, rules) {
            Ok(None) => {
                lemma_lines_rules(lines, i + 1, rules);
                assert(rule_lines(lines, i) =~= rule_lines(lines, i + 1));
            },
            Ok(Some(r)) => {
                lemma_lines_rules(lines, i + 1, rules.push(r));
                let rl = rule_lines(lines, i);
                let rl1 = rule_lines(lines, i + 1);
                assert(rl =~= seq![line_no] + rl1);
                if let Ok(rs) = parse_lines(lines, i, rules) {
                    assert forall|k: int| 0 <= k < rules.len() implies rs[k] == rules[k] by {
                        assert(rs[k] == rules.push(r)[k]);
                    }
                    assert forall|k: int| 0 <= k < rl.len() implies rule_from_line(
                        #[trigger] rs[rules.len() + k],
                        lines,
                        rl[k],
                    ) by {
                        if k == 0 {
                            assert(rs[rules.len() as int] == rules.push(r)[rules.len() as int]);
                        } else {
                            assert(rs[rules.push(r).len() + (k - 1)] == rs[rules.len() + k]);
                        }
                    }
                }
            },
            Err(_) => {},
        }
    } else {
        assert(rule_lines(lines, i) =~= Seq::<nat>::empty());
    }
}

/// Law: the rules of a parsed file are exactly those of its rule lines (the
/// lines that are neither blank nor comments), in file order: rule `k` has
/// the number of the `k`-th rule line, the name before that line's first
/// `=`, and one alternative per `|`-separated segment of the text after it.
pub proof fn lemma_rules_of_lines(source: Seq<char>)
    ensures
        grammar_of(source) matches Ok(g) ==> {
            let lines = lines_of(source);
            let rl = rule_lines(lines, 0);
            &&& g.len() == rl.len()
            &&& forall|k: int| 0 <= k < g.len() ==> rule_from_line(#[trigger] g[k], lines, rl[k])
        },
{
    let lines = lines_of(source);
    lemma_lines_rules(lines, 0, seq![]);
    if let Ok(g) = grammar_of(source) {
        assert forall|k: int| 0 <= k < g.len() implies rule_from_line(
            #[trigger] g[k],
            lines,
            rule_lines(lines, 0)[k],
        ) by {
            assert(g[0 + k] == g[k]);
        }
    }
}


// ---------------------------------------------------------------------------
// Laws of character classes
// ---------------------------------------------------------------------------

proof fn lemma_range_has(lo: int, hi: int, c: char)
    requires
        lo <= c as u32 <= hi,
    ensures
        range_chars(lo, hi).contains(c),
    decreases hi - lo + 1,
{
    vstd::utf8::char_is_scalar(c);
    if hi == c as u32 {
        let r = range_chars(lo, hi);
        assert(r[r.len() - 1] == c);
    } else {
        lemma_range_has(lo, hi - 1, c);
        let r0 = range_chars(lo, hi - 1);
        let i = choose|i: int| 0 <= i < r0.len() && r0[i] == c;
        assert(range_chars(lo, hi)[i] == c);
    }
}

proof fn lemma_class_keeps(content: Seq<char>, k: int, acc: Seq<char>)
    requires
        0 <= k,
    ensures
        class_from(content, k, acc) matches Ok(cs) ==> acc.len() <= cs.len() && forall|i: int|
            0 <= i < acc.len() ==> cs[i] == acc[i],
    decreases content.len() - k,
{
    if k < content.len() {
        if k + 2 < content.len() && content[k + 1] == '-' && !(k == 0 && content[k] == '-') {
            if (content[k] as u32) <= (content[k + 2] as u32) {
                let acc2 = acc + range_chars(content[k] as u32 as int, content[k + 2] as u32 as int);
                lemma_class_keeps(content, k + 3, acc2);
                assert forall|i: int| 0 <= i < acc.len() implies acc2[i] == acc[i] by {}
            }
        } else {
            lemma_class_keeps(content, k + 1, acc.push(content[k]));
        }
    }
}

/// Position `k` of a class body starts a range `x-y`: a `-` follows it and
/// a character after that, and neither it nor the character before it is
/// a dash (so it does not end another range).
pub open spec fn starts_range(content: Seq<char>, k: int) -> bool {
    &&& 0 <= k
    &&& k + 2 < content.len()
    &&& content[k + 1] == '-'
    &&& content[k] != '-'
    &&& (k == 0 || content[k - 1] != '-')
}

proof fn lemma_class_range_from(content: Seq<char>, t: int, acc: Seq<char>, k: int, c: char)
    requires
        0 <= t <= k,
        starts_range(content, k),
        content[k] as u32 <= c as u32 <= content[k + 2] as u32,
    ensures
        class_from(content, t, acc) matches Ok(cs) ==> cs.contains(c),
    decreases k - t,
{
    if t == k {
        let acc2 = acc + range_chars(content[k] as u32 as int, content[k + 2] as u32 as int);
        lemma_class_keeps(content, k + 3, acc2);
        lemma_range_has(content[k] as u32 as int, content[k + 2] as u32 as int, c);
        let r = range_chars(content[k] as u32 as int, content[k + 2] as u32 as int);
        let i = choose|i: int| 0 <= i < r.len() && r[i] == c;
        assert(acc2[acc.len() + i] == c);
        if let Ok(cs) = class_from(content, t, acc) {
            assert(cs[acc.len() + i] == c);
        }
    } else if t + 2 < content.len() && content[t + 1] == '-' && !(t == 0 && content[t] == '-') {
        if (content[t] as u32) <= (content[t + 2] as u32) {
            assert(t + 3 <= k);
            lemma_class_range_from(
                content,
                t + 3,
                acc + range_chars(content[t] as u32 as int, content[t + 2] as u32 as int),
                k,
                c,
            );
        }
    } else {
        lemma_class_range_from(content, t + 1, acc.push(content[t]), k, c);
    }
}

proof fn lemma_class_reversed_from(content: Seq<char>, t: int, acc: Seq<char>, k: int)
    requires
        0 <= t <= k,
        starts_range(content, k),
        content[k] as u32 > content[k + 2] as u32,
    ensures
        class_from(content, t, acc) is Err,
    decreases k - t,
{
    if t < k {
        if t + 2 < content.len() && content[t + 1] == '-' && !(t == 0 && content[t] == '-') {
            if (content[t] as u32) <= (content[t + 2] as u32) {
                lemma_class_reversed_from(
                    content,
                    t + 3,
                    acc + range_chars(content[t] as u32 as int, content[t + 2] as u32 as int),
                    k,
                );
            }
        } else {
            lemma_class_reversed_from(content, t + 1, acc.push(content[t]), k);
        }
    }
}

/// Law: a class with a range whose ends are out of order, such as `z-a`,
/// is refused.
pub proof fn lemma_class_reversed_range(content: Seq<char>, k: int)
    requires
        starts_range(content, k),
        content[k] as u32 > content[k + 2] as u32,
    ensures
        class_from(content, 0, seq![]) is Err,
{
    lemma_class_reversed_from(content, 0, seq![], k);
}

/// Law: every range `x-y` of a class body, wherever it stands in the
/// brackets, contributes every character from `x` to `y` to the class.
pub proof fn lemma_class_ranges(content: Seq<char>, k: int, c: char)
    requires
        starts_range(content, k),
        content[k] as u32 <= c as u32 <= content[k + 2] as u32,
    ensures
        class_from(content, 0, seq![]) matches Ok(cs) ==> cs.contains(c),
{
    lemma_class_range_from(content, 0, seq![], k, c);
}

proof fn lemma_class_single_from(content: Seq<char>, t: int, acc: Seq<char>, k: int)
    requires
        0 <= t <= k < content.len(),
        content[k] != '-' || k == 0 || k == content.len() - 1,
    ensures
        class_from(content, t, acc) matches Ok(cs) ==> cs.contains(content[k]),
    decreases k - t,
{
    if t + 2 < content.len() && content[t + 1] == '-' && !(t == 0 && content[t] == '-') {
        if (content[t] as u32) <= (content[t + 2] as u32) {
            let acc2 = acc + range_chars(content[t] as u32 as int, content[t + 2] as u32 as int);
            if k <= t + 2 {
                lemma_class_keeps(content, t + 3, acc2);
                let r = range_chars(content[t] as u32 as int, content[t + 2] as u32 as int);
                lemma_range_has(content[t] as u32 as int, content[t + 2] as u32 as int, content[k]);
                let i = choose|i: int| 0 <= i < r.len() && r[i] == content[k];
                assert(acc2[acc.len() + i] == content[k]);
                if let Ok(cs) = class_from(content, t, acc) {
                    assert(cs[acc.len() + i] == content[k]);
                }
            } else {
                lemma_class_single_from(content, t + 3, acc2, k);
            }
        }
    } else if t == k {
        lemma_class_keeps(content, k + 1, acc.push(content[k]));
        if let Ok(cs) = class_from(content, t, acc) {
            assert(cs[acc.len() as int] == content[k]);
        }
    } else {
        lemma_class_single_from(content, t + 1, acc.push(content[t]), k);
    }
}

/// Law: every character written in a class body is one of the class's
/// characters, but for a dash between two others (which may mark a range):
/// in particular a dash first or last in the brackets is a literal dash.
pub proof fn lemma_class_lists_its_chars(content: Seq<char>, k: int)
    requires
        0 <= k < content.len(),
        content[k] != '-' || k == 0 || k == content.len() - 1,
    ensures
        class_from(content, 0, seq![]) matches Ok(cs) ==> cs.contains(content[k]),
{
    lemma_class_single_from(content, 0, seq![], k);
}

proof fn lemma_range_within(lo: int, hi: int, i: int)
    requires
        0 <= lo,
        hi <= 0x10FFFF,
        0 <= i < range_chars(lo, hi).len(),
    ensures
        lo <= range_chars(lo, hi)[i] as u32 <= hi,
    decreases hi - lo + 1,
{
    if hi >= lo {
        let r0 = range_chars(lo, hi - 1);
        if i < r0.len() {
            lemma_range_within(lo, hi - 1, i);
        } else {
            assert(vstd::utf8::is_scalar(hi as u32));
        }
    }
}

/// A character that a class body `content` lists: one written in it, or
/// one within a range `x-y` of it (a dash first in the body starts none).
pub open spec fn listed_in(content: Seq<char>, c: char) -> bool {
    ||| exists|k: int| 0 <= k < content.len() && content[k] == c
    ||| exists|k: int|
        0 <= k && k + 2 < content.len() && content[k + 1] == '-' && !(k == 0 && content[k] == '-')
            && content[k] as u32 <= c as u32 <= #[trigger] content[k + 2] as u32
}

proof fn lemma_class_sound_from(content: Seq<char>, t: int, acc: Seq<char>)
    requires
        0 <= t,
        forall|i: int| 0 <= i < acc.len() ==> listed_in(content, #[trigger] acc[i]),
    ensures
        class_from(content, t, acc) matches Ok(cs) ==> forall|i: int|
            0 <= i < cs.len() ==> listed_in(content, #[trigger] cs[i]),
    decreases content.len() - t,
{
    if t < content.len() {
        if t + 2 < content.len() && content[t + 1] == '-' && !(t == 0 && content[t] == '-') {
            if (content[t] as u32) <= (content[t + 2] as u32) {
                let lo = content[t] as u32 as int;
                let hi = content[t + 2] as u32 as int;
                let acc2 = acc + range_chars(lo, hi);
                assert forall|i: int| 0 <= i < acc2.len() implies listed_in(
                    content,
                    #[trigger] acc2[i],
                ) by {
                    if i >= acc.len() {
                        vstd::utf8::char_is_scalar(content[t + 2]);
                        lemma_range_within(lo, hi, i - acc.len());
                        assert(acc2[i] == range_chars(lo, hi)[i - acc.len()]);
                        let x = acc2[i];
                        assert(0 <= t && t + 2 < content.len() && content[t + 1] == '-'
                            && content[t] as u32 <= x as u32 <= content[t + 2] as u32);
                    } else {
                        assert(acc2[i] == acc[i]);
                    }
                }
                lemma_class_sound_from(content, t + 3, acc2);
            }
        } else {
            let acc2 = acc.push(content[t]);
            assert forall|i: int| 0 <= i < acc2.len() implies listed_in(
                content,
                #[trigger] acc2[i],
            ) by {
                if i == acc.len() {
                    assert(acc2[i] == content[t]);
                } else {
                    assert(acc2[i] == acc[i]);
                }
            }
            lemma_class_sound_from(content, t + 1, acc2);
        }
    }
}

/// Law: a class holds nothing but what its body lists: each of its
/// characters is written in the brackets or lies within one of their
/// ranges.
pub proof fn lemma_class_lists_nothing_else(content: Seq<char>)
    ensures
        class_from(content, 0, seq![]) matches Ok(cs) ==> forall|i: int|
            0 <= i < cs.len() ==> listed_in(content, #[trigger] cs[i]),
{
    lemma_class_sound_from(content, 0, seq![]);
}

// ---------------------------------------------------------------------------
// Laws of lines
// ---------------------------------------------------------------------------

/// A line that holds nothing but whitespace, or whose first character other
/// than whitespace is `#`.
pub open spec fn blank_or_comment(raw: Seq<char>) -> bool {
    ||| forall|j: int| 0 <= j < raw.len() ==> white_space(#[trigger] raw[j])
    ||| exists|k: int|
        0 <= k < raw.len() && raw[k] == '#' && forall|j: int|
            0 <= j < k ==> white_space(#[trigger] raw[j])
}

/// Law: a blank line or a comment, indented or not, contributes nothing
/// and is never an error.
pub proof fn lemma_comment_line_skipped(raw: Seq<char>, line_no: nat, rules: Seq<RuleModel>)
    requires
        blank_or_comment(raw),
    ensures
        line_outcome(raw, line_no, rules) == Ok::<Option<RuleModel>, ErrorModel>(None),
{
    lemma_lead_ws_bound(raw);
    let l = lead_ws(raw) as int;
    if l < raw.len() {
        lemma_ws_is_white_space(raw[l]);
        if !(forall|j: int| 0 <= j < raw.len() ==> white_space(#[trigger] raw[j])) {
            let k = choose|k: int|
                0 <= k < raw.len() && raw[k] == '#' && forall|j: int|
                    0 <= j < k ==> white_space(#[trigger] raw[j]);
            if k < l {
                lemma_ws_is_white_space(raw[k]);
            }
            assert(k == l);
            assert(trim_start(raw)[0] == raw[l]);
        }
    }
}

/// Law: parsing gives the same result whether a blank or comment line is
/// there or stands empty.
pub proof fn lemma_comment_lines_ignored(
    lines: Seq<Seq<char>>,
    i: int,
    rules: Seq<RuleModel>,
    m: int,
)
    requires
        0 <= m < lines.len(),
        blank_or_comment(lines[m]),
    ensures
        parse_lines(lines, i, rules) == parse_lines(lines.update(m, seq![]), i, rules),
    decreases lines.len() - i,
{
    let blanked = lines.update(m, seq![]);
    if 0 <= i < lines.len() {
        if i == m {
            lemma_comment_line_skipped(lines[m], (i + 1) as nat, rules);
            lemma_comment_line_skipped(seq![], (i + 1) as nat, rules);
            lemma_comment_lines_ignored(lines, i + 1, rules, m);
        } else {
            assert(blanked[i] == lines[i]);
            match line_outcome(lines[i], (i + 1) as nat, rules) {
                Err(e) => {},
                Ok(None) => {
                    lemma_comment_lines_ignored(lines, i + 1, rules, m);
                },
                Ok(Some(r)) => {
                    lemma_comment_lines_ignored(lines, i + 1, rules.push(r), m);
                },
            }
        }
    }
}

/// What a line with a `=` at `p` (its first) and a non-empty name before it
/// looks like to `line_outcome`.
proof fn lemma_rule_line_split(raw: Seq<char>, p: int)
    requires
        0 <= p,
        find_char(raw, '=') == Some(p as nat),
        trim(raw.take(p)).len() > 0,
    ensures
        ({
            let l = lead_ws(raw) as int;
            let t = trim_start(raw);
            &&& l < p
            &&& t.len() > 0
            &&& t[0] == trim(raw.take(p))[0]
            &&& find_char(t, '=') == Some((p - l) as nat)
            &&& trim(t.take(p - l)) == trim(raw.take(p))
            &&& blen(raw.take(l)) + blen(t.take(p - l)) == blen(raw.take(p))
            &&& t.skip(p - l + 1) == raw.skip(p + 1)
        }),
{
    lemma_find_char_bound(raw, '=');
    lemma_lead_ws_bound(raw);
    let l = lead_ws(raw) as int;
    let t = trim_start(raw);
    let h = raw.take(p);
    if l >= p {
        lemma_lead_ws(h, p);
        assert(trim_start(h).len() == 0);
        lemma_trail_ws_bound(trim_start(h));
        assert(false);
    }
    lemma_lead_ws(h, l);
    let u = t.take(p - l);
    assert(trim_start(h) =~= u);
    lemma_lead_ws(u, 0);
    assert(trim_start(u) =~= u);
    lemma_trail_ws_bound(u);
    assert(trim(h)[0] == raw[l]);
    lemma_find_char_first(t, '=', p - l);
    assert(h.take(l) =~= raw.take(l));
    assert(h.skip(l) =~= u);
    lemma_blen_split(h, l);
    assert(t.skip(p - l + 1) =~= raw.skip(p + 1));
}

/// Law: a line whose text before its first `=` is, trimmed, a well-formed
/// name (letters, digits and `_`, not starting with a digit) defines a rule
/// of that name, when no rule above has it and the text after the `=`
/// parses into alternatives.
pub proof fn lemma_named_rule_line(
    raw: Seq<char>,
    p: nat,
    line_no: nat,
    rules: Seq<RuleModel>,
    alts: Seq<AltModel>,
)
    requires
        find_char(raw, '=') == Some(p),
        well_named(trim(raw.take(p as int))),
        !has_rule(rules, trim(raw.take(p as int))),
        parse_alts(raw.skip((p + 1) as int), blen(raw.take(p as int)) + 1, seq![], line_no, raw) == Ok::<
            Seq<AltModel>,
            ErrorModel,
        >(alts),
    ensures
        line_outcome(raw, line_no, rules) == Ok::<Option<RuleModel>, ErrorModel>(
            Some(RuleModel { name: trim(raw.take(p as int)), alternatives: alts, line: line_no }),
        ),
{
    let name = trim(raw.take(p as int));
    lemma_rule_line_split(raw, p as int);
    lemma_identifiers_are_names(name);
    lemma_find_rule_absent(rules, name);
}

/// Law: a line whose text before its first `=` is, trimmed, neither empty,
/// nor a comment, nor a well-formed name is refused, at the column where
/// that text starts.
pub proof fn lemma_badly_named_rule_line(raw: Seq<char>, p: nat, line_no: nat, rules: Seq<RuleModel>)
    requires
        find_char(raw, '=') == Some(p),
        trim(raw.take(p as int)).len() > 0,
        trim(raw.take(p as int))[0] != '#',
        !well_named(trim(raw.take(p as int))),
    ensures
        line_outcome(raw, line_no, rules) == Err::<Option<RuleModel>, ErrorModel>(
            error_at(
                line_no,
                blen(raw.take(lead_ws(raw) as int)) + 1,
                msg_bad_name(trim(raw.take(p as int))),
                raw,
            ),
        ),
{
    lemma_rule_line_split(raw, p as int);
    lemma_identifiers_are_names(trim(raw.take(p as int)));
}

/// Law: `<name>` with a well-formed name is a reference to that rule, at
/// the column of the `<`.
pub proof fn lemma_named_reference(name: Seq<char>, off: nat, line_no: nat, raw: Seq<char>)
    requires
        well_named(name),
    ensures
        parts_from(seq!['<'] + name + seq!['>'], 0, seq![], seq![], off, line_no, raw) == Ok::<
            Seq<PartModel>,
            ErrorModel,
        >(seq![PartModel::Reference { name, line: line_no, column: off + 1 }]),
{
    let text = seq!['<'] + name + seq!['>'];
    lemma_identifiers_are_names(name);
    assert(text.skip(1) =~= name + seq!['>']);
    assert forall|j: int| 0 <= j < name.len() implies (name + seq!['>'])[j] != '>' by {
        assert((name + seq!['>'])[j] == name[j]);
    }
    lemma_find_char_first(name + seq!['>'], '>', name.len() as int);
    assert(text.subrange(1, 1 + name.len() as int) =~= name);
    assert forall|j: int| 0 <= j < name.len() implies !is_ws(#[trigger] name[j]) by {}
    lemma_lead_ws(name, 0);
    assert(trim_start(name) =~= name);
    lemma_trail_ws_zero(name);
    assert(trim(name) =~= name);
    assert(text.take(0) =~= Seq::<char>::empty());
    assert(flush(seq![], seq![]) == Seq::<PartModel>::empty());
    let r = PartModel::Reference { name, line: line_no, column: off + 1 };
    assert(seq![].push(r) =~= seq![r]);
    assert(text[0] == '<');
    assert(blen(text.take(0)) == 0);
    assert(find_char(text.skip(1), '>') == Some(name.len()));
    let j: int = 1 + name.len() as int;
    assert(parts_from(text, j + 1, seq![], seq![r], off, line_no, raw) == Ok::<
        Seq<PartModel>,
        ErrorModel,
    >(seq![r]));
}

/// Law: `<text>` whose trimmed text is neither empty nor a well-formed name
/// is refused, at the column after the `<`.
pub proof fn lemma_badly_named_reference(
    inner: Seq<char>,
    off: nat,
    line_no: nat,
    raw: Seq<char>,
)
    requires
        forall|j: int| 0 <= j < inner.len() ==> inner[j] != '>',
        trim(inner).len() > 0,
        !well_named(trim(inner)),
    ensures
        parts_from(seq!['<'] + inner + seq!['>'], 0, seq![], seq![], off, line_no, raw) == Err::<
            Seq<PartModel>,
            ErrorModel,
        >(error_at(line_no, off + 2, msg_bad_ref(trim(inner)), raw)),
{
    let text = seq!['<'] + inner + seq!['>'];
    lemma_identifiers_are_names(trim(inner));
    assert(text.skip(1) =~= inner + seq!['>']);
    assert forall|j: int| 0 <= j < inner.len() implies (inner + seq!['>'])[j] != '>' by {
        assert((inner + seq!['>'])[j] == inner[j]);
    }
    lemma_find_char_first(inner + seq!['>'], '>', inner.len() as int);
    assert(text.subrange(1, 1 + inner.len() as int) =~= inner);
    assert(text.take(0) =~= Seq::<char>::empty());
}

proof fn lemma_trail_ws_zero(s: Seq<char>)
    requires
        s.len() == 0 || !is_ws(s.last()),
    ensures
        trail_ws(s) == 0,
{
}

proof fn lemma_plain_parts(
    word: Seq<char>,
    i: int,
    off: nat,
    line_no: nat,
    raw: Seq<char>,
)
    requires
        0 <= i <= word.len(),
        word.len() > 0,
        forall|j: int|
            0 <= j < word.len() ==> #[trigger] word[j] != '<' && word[j] != '>' && word[j] != '[',
    ensures
        parts_from(word, i, word.take(i), seq![], off, line_no, raw) == Ok::<
            Seq<PartModel>,
            ErrorModel,
        >(seq![PartModel::Literal(word)]),
    decreases word.len() - i,
{
    if i < word.len() {
        assert(word.take(i).push(word[i]) =~= word.take(i + 1));
        lemma_plain_parts(word, i + 1, off, line_no, raw);
    } else {
        assert(word.take(i) =~= word);
        assert(Seq::<PartModel>::empty().push(PartModel::Literal(word)) =~= seq![
            PartModel::Literal(word),
        ]);
    }
}

/// Law: an alternative of plain text (no reference, class or weight) with
/// White_Space around it is that text, trimmed, as one literal of weight 1.
pub proof fn lemma_plain_alternative(
    before: Seq<char>,
    word: Seq<char>,
    after: Seq<char>,
    off: nat,
    line_no: nat,
    raw: Seq<char>,
)
    requires
        forall|j: int| 0 <= j < before.len() ==> white_space(#[trigger] before[j]),
        forall|j: int| 0 <= j < after.len() ==> white_space(#[trigger] after[j]),
        word.len() > 0,
        !white_space(word[0]),
        !white_space(word.last()),
        forall|j: int|
            0 <= j < word.len() ==> #[trigger] word[j] != '<' && word[j] != '>' && word[j] != '['
                && word[j] != ':',
    ensures
        parse_alt(before + word + after, off, line_no, raw) == Ok::<AltModel, ErrorModel>(
            AltModel { parts: seq![PartModel::Literal(word)], weight: 1 },
        ),
{
    lemma_trim_around(before, word, after);
    lemma_trail_digits_bound(word);
    let ds = word.len() - trail_digits(word);
    if trail_digits(word) > 0 && ds > 0 {
        assert(word[ds - 1] != ':');
    }
    assert(word.take(0) =~= Seq::<char>::empty());
    lemma_plain_parts(word, 0, off + blen((before + word + after).take(
        lead_ws(before + word + after) as int,
    )), line_no, raw);
}

/// Law: an alternative of plain text followed by `:N` (N written in
/// decimal digits, from 1 to `u32::MAX`), with White_Space around it, is
/// that text as one literal of weight N.
pub proof fn lemma_weighted_alternative(
    before: Seq<char>,
    word: Seq<char>,
    digits: Seq<char>,
    after: Seq<char>,
    off: nat,
    line_no: nat,
    raw: Seq<char>,
)
    requires
        forall|j: int| 0 <= j < before.len() ==> white_space(#[trigger] before[j]),
        forall|j: int| 0 <= j < after.len() ==> white_space(#[trigger] after[j]),
        word.len() > 0,
        !white_space(word[0]),
        forall|j: int|
            0 <= j < word.len() ==> #[trigger] word[j] != '<' && word[j] != '>' && word[j] != '[',
        digits.len() > 0,
        forall|j: int| 0 <= j < digits.len() ==> '0' <= #[trigger] digits[j] <= '9',
        1 <= digits_value(digits) <= u32::MAX,
    ensures
        parse_alt(before + (word + seq![':'] + digits) + after, off, line_no, raw) == Ok::<
            AltModel,
            ErrorModel,
        >(AltModel { parts: seq![PartModel::Literal(word)], weight: digits_value(digits) }),
{
    let t = word + seq![':'] + digits;
    assert(t[0] == word[0]);
    assert(t.last() == digits.last());
    lemma_trim_around(before, t, after);
    assert forall|j: int| t.len() - digits.len() <= j < t.len() implies is_ascii_digit(t[j]) by {
        assert(t[j] == digits[j - word.len() - 1]);
    }
    assert(t[t.len() - digits.len() - 1] == ':');
    lemma_trail_digits(t, digits.len() as int);
    let ds = t.len() - trail_digits(t);
    assert(t.take(ds - 1) =~= word);
    assert(t.skip(ds) =~= digits);
    lemma_count_none(word, '<');
    lemma_count_none(word, '>');
    assert(word.take(0) =~= Seq::<char>::empty());
    let seg = before + t + after;
    lemma_plain_parts(word, 0, off + blen(seg.take(lead_ws(seg) as int)), line_no, raw);
}

/// Law: a weight of zero is refused, and so is one above `u32::MAX`, at the
/// column of its first digit.
pub proof fn lemma_weight_refused(
    before: Seq<char>,
    word: Seq<char>,
    digits: Seq<char>,
    after: Seq<char>,
    off: nat,
    line_no: nat,
    raw: Seq<char>,
)
    requires
        forall|j: int| 0 <= j < before.len() ==> white_space(#[trigger] before[j]),
        forall|j: int| 0 <= j < after.len() ==> white_space(#[trigger] after[j]),
        word.len() > 0,
        !white_space(word[0]),
        forall|j: int| 0 <= j < word.len() ==> #[trigger] word[j] != '<' && word[j] != '>',
        digits.len() > 0,
        forall|j: int| 0 <= j < digits.len() ==> '0' <= #[trigger] digits[j] <= '9',
        digits_value(digits) == 0 || digits_value(digits) > u32::MAX,
    ensures
        parse_alt(before + (word + seq![':'] + digits) + after, off, line_no, raw) == Err::<
            AltModel,
            ErrorModel,
        >(
            error_at(
                line_no,
                off + blen(before + word + seq![':']) + 1,
                if digits_value(digits) == 0 {
                    msg_weight_zero()
                } else {
                    msg_weight_large(digits)
                },
                raw,
            ),
        ),
{
    let t = word + seq![':'] + digits;
    let seg = before + t + after;
    assert(t[0] == word[0]);
    assert(t.last() == digits.last());
    lemma_trim_around(before, t, after);
    assert forall|j: int| t.len() - digits.len() <= j < t.len() implies is_ascii_digit(t[j]) by {
        assert(t[j] == digits[j - word.len() - 1]);
    }
    assert(t[t.len() - digits.len() - 1] == ':');
    lemma_trail_digits(t, digits.len() as int);
    let ds = t.len() - trail_digits(t);
    assert(t.take(ds - 1) =~= word);
    assert(t.skip(ds) =~= digits);
    lemma_count_none(word, '<');
    lemma_count_none(word, '>');
    assert forall|j: int| 0 <= j < before.len() implies is_ws(#[trigger] seg[j]) by {
        assert(seg[j] == before[j]);
        lemma_ws_is_white_space(before[j]);
    }
    lemma_ws_is_white_space(word[0]);
    assert(seg[before.len() as int] == word[0]);
    lemma_lead_ws(seg, before.len() as int);
    assert(seg.take(before.len() as int) =~= before);
    assert(t.take(ds) =~= word + seq![':']);
    lemma_blen_concat(before, word + seq![':']);
    assert(before + word + seq![':'] =~= before + (word + seq![':']));
}

/// Law: a line that defines a well-formed name again is refused, naming
/// the line of the first rule of that name.
pub proof fn lemma_duplicate_rule_line(
    raw: Seq<char>,
    p: nat,
    line_no: nat,
    rules: Seq<RuleModel>,
    k: int,
)
    requires
        find_char(raw, '=') == Some(p),
        well_named(trim(raw.take(p as int))),
        0 <= k < rules.len(),
        rules[k].name == trim(raw.take(p as int)),
        forall|j: int| 0 <= j < k ==> rules[j].name != trim(raw.take(p as int)),
    ensures
        line_outcome(raw, line_no, rules) == Err::<Option<RuleModel>, ErrorModel>(
            error_at(
                line_no,
                blen(raw.take(lead_ws(raw) as int)) + 1,
                msg_duplicate(trim(raw.take(p as int)), rules[k].line),
                raw,
            ),
        ),
{
    let name = trim(raw.take(p as int));
    lemma_rule_line_split(raw, p as int);
    lemma_identifiers_are_names(name);
    lemma_find_rule_first(rules, name, k);
}

proof fn lemma_comment_lines_only(lines: Seq<Seq<char>>, i: int, rules: Seq<RuleModel>)
    requires
        0 <= i,
        forall|j: int| i <= j < lines.len() ==> blank_or_comment(#[trigger] lines[j]),
    ensures
        parse_lines(lines, i, rules) == Ok::<Seq<RuleModel>, ErrorModel>(rules),
    decreases lines.len() - i,
{
    if i < lines.len() {
        lemma_comment_line_skipped(lines[i], (i + 1) as nat, rules);
        lemma_comment_lines_only(lines, i + 1, rules);
    }
}

/// Law: a file of blank lines and comments alone defines no rule, and is
/// refused as such, at line 1.
pub proof fn lemma_no_rules(source: Seq<char>)
    requires
        forall|j: int|
            0 <= j < lines_of(source).len() ==> blank_or_comment(#[trigger] lines_of(source)[j]),
    ensures
        grammar_of(source) == Err::<Seq<RuleModel>, ErrorModel>(
            error_at(1, 1, msg_no_rules(), line_text(lines_of(source), 1)),
        ),
{
    lemma_comment_lines_only(lines_of(source), 0, seq![]);
}

/// Law: a segment of White_Space alone is an empty alternative, refused
/// at the column after it.
pub proof fn lemma_blank_alternative(seg: Seq<char>, off: nat, line_no: nat, raw: Seq<char>)
    requires
        forall|j: int| 0 <= j < seg.len() ==> white_space(#[trigger] seg[j]),
    ensures
        parse_alt(seg, off, line_no, raw) == Err::<AltModel, ErrorModel>(
            error_at(line_no, off + blen(seg) + 1, msg_empty_alt(), raw),
        ),
{
    assert forall|j: int| 0 <= j < seg.len() implies is_ws(#[trigger] seg[j]) by {
        lemma_ws_is_white_space(seg[j]);
    }
    lemma_lead_ws(seg, seg.len() as int);
    assert(seg.take(seg.len() as int) =~= seg);
    lemma_trail_ws_bound(trim_start(seg));
}

/// Law: `[body]` is one character class, holding the characters that the
/// body lists (see [`lemma_class_ranges`] and [`lemma_class_lists_nothing_else`]).
pub proof fn lemma_class_part(
    content: Seq<char>,
    cs: Seq<char>,
    off: nat,
    line_no: nat,
    raw: Seq<char>,
)
    requires
        content.len() > 0,
        forall|j: int| 0 <= j < content.len() ==> content[j] != ']',
        class_from(content, 0, seq![]) == Ok::<Seq<char>, int>(cs),
    ensures
        parts_from(seq!['['] + content + seq![']'], 0, seq![], seq![], off, line_no, raw) == Ok::<
            Seq<PartModel>,
            ErrorModel,
        >(seq![PartModel::CharClass(cs)]),
{
    let text = seq!['['] + content + seq![']'];
    assert(text.skip(1) =~= content + seq![']']);
    assert forall|j: int| 0 <= j < content.len() implies (content + seq![']'])[j] != ']' by {
        assert((content + seq![']'])[j] == content[j]);
    }
    lemma_find_char_first(content + seq![']'], ']', content.len() as int);
    assert(text.subrange(1, 1 + content.len() as int) =~= content);
    assert(text.take(0) =~= Seq::<char>::empty());
    let r = PartModel::CharClass(cs);
    assert(seq![].push(r) =~= seq![r]);
    assert(text[0] == '[');
    assert(flush(seq![], seq![]) == Seq::<PartModel>::empty());
    let j: int = 1 + content.len() as int;
    assert(parts_from(text, j + 1, seq![], seq![r], off, line_no, raw) == Ok::<
        Seq<PartModel>,
        ErrorModel,
    >(seq![r]));
}

} // verus!
