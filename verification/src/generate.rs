//! Expands a grammar's rules into names, and the small generator (splitmix64)
//! that drives the choices.

use vstd::prelude::*;
use vstd::string::StringExecFns;
use crate::grammar::{
    alts_model, find_rule, grammar_wf, has_rule, part_ok, parts_model, rule_index, AltModel, Grammar,
    Part, PartModel, RuleModel,
};
use crate::text::push_char;

verus! {

broadcast use vstd::string::group_string_axioms;

/// How deep rule references may nest before generation gives up.
pub const MAX_DEPTH: usize = 100;

/// The increment of the splitmix64 state.
pub const GOLDEN_GAMMA: u64 = 0x9E37_79B9_7F4A_7C15;

/// The fallback seed when the clock reads before the Unix epoch.
pub const FALLBACK_SEED: u64 = 0x2545_F491_4F6C_DD1D;

/// A splitmix64 generator.
pub struct Rng(u64);

impl View for Rng {
    type V = u64;

    closed spec fn view(&self) -> u64 {
        self.0
    }
}

// ---------------------------------------------------------------------------
// The generator, as spec functions
// ---------------------------------------------------------------------------

/// The state after one step from `s`.
pub open spec fn advance(s: u64) -> u64 {
    vstd::wrapping::u64_specs::wrapping_add(s, GOLDEN_GAMMA)
}

/// The splitmix64 output function.
pub open spec fn mix(z0: u64) -> u64 {
    let z1 = vstd::wrapping::u64_specs::wrapping_mul(z0 ^ (z0 >> 30u64), 0xBF58_476D_1CE4_E5B9u64);
    let z2 = vstd::wrapping::u64_specs::wrapping_mul(z1 ^ (z1 >> 27u64), 0x94D0_49BB_1331_11EBu64);
    z2 ^ (z2 >> 31u64)
}

/// The number a generator in state `s` draws next.
pub open spec fn draw(s: u64) -> u64 {
    mix(advance(s))
}

/// The sum of `ws`.
pub open spec fn weight_sum(ws: Seq<u32>) -> nat
    decreases ws.len(),
{
    if ws.len() == 0 {
        0
    } else {
        weight_sum(ws.drop_last()) + ws.last() as nat
    }
}

/// The index that a target `t` (below the sum of `ws`) selects: the `i`
/// whose share `[sum(ws[..i]), sum(ws[..=i]))` holds `t`.
pub open spec fn pick(ws: Seq<u32>, t: int) -> int
    decreases ws.len(),
{
    if ws.len() <= 1 || t < ws[0] {
        0
    } else {
        1 + pick(ws.drop_first(), t - ws[0])
    }
}

/// The weights of a rule's alternatives.
pub open spec fn weights_of(alts: Seq<AltModel>) -> Seq<u32> {
    alts.map_values(|a: AltModel| a.weight as u32)
}

/// Every weight is at least 1.
pub open spec fn all_positive(ws: Seq<u32>) -> bool {
    forall|i: int| 0 <= i < ws.len() ==> ws[i] >= 1
}

// ---------------------------------------------------------------------------
// Generation, as spec functions
// ---------------------------------------------------------------------------

/// `x` in front of a generation result.
pub open spec fn prepend(x: Seq<char>, r: (Result<Seq<char>, Seq<char>>, u64)) -> (
    Result<Seq<char>, Seq<char>>,
    u64,
) {
    (
        match r.0 {
            Ok(y) => Ok(x + y),
            Err(e) => Err(e),
        },
        r.1,
    )
}

/// What expanding rule `name` gives with `b` levels of nesting left and
/// the generator in state `s`: the text (or the name of the rule whose
/// expansion went too deep) and the generator's next state.
pub open spec fn gen_rule(g: Seq<RuleModel>, name: Seq<char>, b: nat, s: u64) -> (
    Result<Seq<char>, Seq<char>>,
    u64,
)
    decreases b, 1nat, 0nat,
{
    if b == 0 {
        (Err(name), s)
    } else {
        match find_rule(g, name) {
            None => (Err(name), s),
            Some(ri) => {
                let alts = g[ri as int].alternatives;
                let ws = weights_of(alts);
                let i = pick(ws, (draw(s) as int) % (weight_sum(ws) as int));
                gen_parts(g, alts[i].parts, b, advance(s))
            },
        }
    }
}

/// What expanding the parts `ps` of an alternative gives, left to right.
pub open spec fn gen_parts(g: Seq<RuleModel>, ps: Seq<PartModel>, b: nat, s: u64) -> (
    Result<Seq<char>, Seq<char>>,
    u64,
)
    decreases b, 0nat, ps.len(),
{
    if ps.len() == 0 {
        (Ok(seq![]), s)
    } else {
        match ps[0] {
            PartModel::Literal(t) => prepend(t, gen_parts(g, ps.drop_first(), b, s)),
            PartModel::CharClass(cs) => prepend(
                seq![cs[(draw(s) as int) % (cs.len() as int)]],
                gen_parts(g, ps.drop_first(), b, advance(s)),
            ),
            PartModel::Reference { name, .. } => {
                let inner = if b == 0 {
                    (Err(name), s)
                } else {
                    gen_rule(g, name, (b - 1) as nat, s)
                };
                match inner.0 {
                    Err(e) => (Err(e), inner.1),
                    Ok(x) => prepend(x, gen_parts(g, ps.drop_first(), b, inner.1)),
                }
            },
        }
    }
}

/// What `generate` gives for rule `start` with the generator in state `s`.
pub open spec fn generation(g: Seq<RuleModel>, start: Seq<char>, s: u64) -> (
    Result<Seq<char>, Seq<char>>,
    u64,
) {
    gen_rule(g, start, (MAX_DEPTH + 1) as nat, s)
}

/// The message when expanding rule `name` nests too deeply.
pub open spec fn depth_message(name: Seq<char>) -> Seq<char> {
    "generation exceeded the maximum depth (100) while expanding rule '"@ + name
        + "' - the grammar likely has a rule that refers back to itself with no way to stop"@
}

// ---------------------------------------------------------------------------
// The generator
// ---------------------------------------------------------------------------

impl Rng {
    /// A generator seeded with `seed` (made odd, so the state is never zero).
    pub fn new_seeded(seed: u64) -> (r: Rng)
        ensures
            r@ == seed | 1,
            r@ != 0,
    {
        assert((seed | 1) != 0) by (bit_vector);
        Rng(seed | 1)
    }

    /// A generator seeded from the clock and the process id: `nanos` is the
    /// time since the Unix epoch in nanoseconds (`None` if the clock reads
    /// before it) and `pid` the process id.
    pub fn from_entropy(nanos: Option<u64>, pid: u32) -> (r: Rng)
        ensures
            r@ == (match nanos {
                Some(n) => n,
                None => FALLBACK_SEED,
            } ^ vstd::wrapping::u64_specs::wrapping_mul(pid as u64, GOLDEN_GAMMA)) | 1,
            r@ != 0,
    {
        let n = match nanos {
            Some(n) => n,
            None => FALLBACK_SEED,
        };
        let seed = n ^ (pid as u64).wrapping_mul(GOLDEN_GAMMA);
        assert((seed | 1) != 0) by (bit_vector);
        Rng(seed | 1)
    }

    /// Steps the state and returns the next number.
    fn next_u64(&mut self) -> (r: u64)
        ensures
            r == draw(old(self)@),
            final(self)@ == advance(old(self)@),
    {
        self.0 = self.0.wrapping_add(GOLDEN_GAMMA);
        let mut z = self.0;
        z = (z ^ (z >> 30)).wrapping_mul(0xBF58_476D_1CE4_E5B9);
        z = (z ^ (z >> 27)).wrapping_mul(0x94D0_49BB_1331_11EB);
        z ^ (z >> 31)
    }

    /// Picks an index with probability proportional to its weight.
    #[verifier::loop_isolation(false)]
    pub fn weighted_index(&mut self, weights: &Vec<u32>) -> (r: usize)
        requires
            weights.len() > 0,
            all_positive(weights@),
        ensures
            r == pick(weights@, (draw(old(self)@) as int) % (weight_sum(weights@) as int)),
            r < weights.len(),
            final(self)@ == advance(old(self)@),
    {
        let mut total: u128 = 0;
        let mut i: usize = 0;
        while i < weights.len()
            invariant
                i <= weights.len(),
                total == weight_sum(weights@.take(i as int)),
                total <= i * 0xFFFF_FFFF,
            decreases weights.len() - i,
        {
            assert(weights@.take(i + 1).drop_last() =~= weights@.take(i as int));
            total = total + weights[i] as u128;
            i = i + 1;
        }
        assert(weights@.take(weights.len() as int) =~= weights@);
        proof {
            lemma_weight_sum_positive(weights@);
        }
        let x = self.next_u64();
        let mut target: u128 = (x as u128) % total;
        let ghost t0 = target as int;
        let mut i: usize = 0;
        assert(weights@.skip(0) =~= weights@);
        while i + 1 < weights.len()
            invariant
                i < weights.len(),
                all_positive(weights@),
                pick(weights@, t0) == i + pick(weights@.skip(i as int), target as int),
            decreases weights.len() - i,
        {
            let w = weights[i] as u128;
            if target < w {
                return i;
            }
            assert(weights@.skip(i as int).drop_first() =~= weights@.skip(i + 1));
            target = target - w;
            i = i + 1;
        }
        i
    }

    /// Picks a uniformly random index below `len`.
    pub fn uniform_index(&mut self, len: usize) -> (r: usize)
        requires
            len > 0,
        ensures
            r == (draw(old(self)@) as int) % (len as int),
            r < len,
            final(self)@ == advance(old(self)@),
    {
        let x = self.next_u64();
        (x % (len as u64)) as usize
    }
}

pub proof fn lemma_weight_sum_positive(ws: Seq<u32>)
    requires
        ws.len() > 0,
        all_positive(ws),
    ensures
        weight_sum(ws) >= 1,
    decreases ws.len(),
{
    if ws.len() > 1 {
        lemma_weight_sum_positive(ws.drop_last());
    }
}

/// Law: generation is reproducible: it depends on the grammar, the start
/// rule and the generator's state alone, so two generators in the same state
/// (such as two seeded alike) give the same name, or the same error, and
/// end in the same state.
pub proof fn lemma_reproducible(g: Seq<RuleModel>, start: Seq<char>, a: u64, b: u64)
    requires
        a == b,
    ensures
        generation(g, start, a) == generation(g, start, b),
{
}

/// `weight_sum` peeled from the front.
pub proof fn lemma_weight_sum_front(ws: Seq<u32>)
    requires
        ws.len() > 0,
    ensures
        weight_sum(ws) == ws[0] + weight_sum(ws.drop_first()),
    decreases ws.len(),
{
    if ws.len() > 1 {
        lemma_weight_sum_front(ws.drop_last());
        assert(ws.drop_last().drop_first() =~= ws.drop_first().drop_last());
    } else {
        assert(ws.drop_first() =~= Seq::<u32>::empty());
        assert(ws.drop_last() =~= Seq::<u32>::empty());
    }
}

/// Law: with positive weights, a target `t` below their sum selects the
/// index `i` exactly when `t` lies in `[sum(ws[..i]), sum(ws[..=i]))`, a
/// share of width `ws[i]`: an alternative of weight N is picked for N times
/// as many targets as one of weight 1.
pub proof fn lemma_pick_share(ws: Seq<u32>, t: int)
    requires
        all_positive(ws),
        0 <= t < weight_sum(ws),
    ensures
        0 <= pick(ws, t) < ws.len(),
        weight_sum(ws.take(pick(ws, t))) <= t < weight_sum(ws.take(pick(ws, t) + 1)),
        forall|i: int|
            0 <= i < ws.len() ==> (pick(ws, t) == i <==> weight_sum(ws.take(i)) <= t
                < weight_sum(#[trigger] ws.take(i + 1))),
    decreases ws.len(),
{
    lemma_weight_sum_front(ws);
    assert(ws.take(0) =~= Seq::<u32>::empty());
    assert(ws.take(1).drop_last() =~= Seq::<u32>::empty());
    if ws.len() > 1 && t >= ws[0] {
        let rest = ws.drop_first();
        lemma_pick_share(rest, t - ws[0]);
        assert forall|j: int| 0 <= j <= rest.len() implies weight_sum(#[trigger] ws.take(j + 1))
            == ws[0] + weight_sum(rest.take(j)) by {
            lemma_weight_sum_front(ws.take(j + 1));
            assert(ws.take(j + 1).drop_first() =~= rest.take(j));
        }
        lemma_prefix_sums_grow(ws);
    } else {
        lemma_prefix_sums_grow(ws);
        if ws.len() == 1 {
            assert(ws.take(1) =~= ws);
        }
    }
}

/// Prefix sums of positive weights grow strictly.
pub proof fn lemma_prefix_sums_grow(ws: Seq<u32>)
    requires
        all_positive(ws),
    ensures
        forall|i: int, j: int|
            0 <= i < j <= ws.len() ==> weight_sum(#[trigger] ws.take(i)) < weight_sum(
                #[trigger] ws.take(j),
            ),
        forall|i: int| 0 <= i <= ws.len() ==> weight_sum(#[trigger] ws.take(i)) <= weight_sum(ws),
{
    assert forall|i: int, j: int| 0 <= i < j <= ws.len() implies weight_sum(#[trigger] ws.take(i))
        < weight_sum(#[trigger] ws.take(j)) by {
        lemma_prefix_grow_step(ws, i, j);
    }
    assert forall|i: int| 0 <= i <= ws.len() implies weight_sum(#[trigger] ws.take(i)) <= weight_sum(
        ws,
    ) by {
        if i < ws.len() {
            lemma_prefix_grow_step(ws, i, ws.len() as int);
        }
        assert(ws.take(ws.len() as int) =~= ws);
    }
}

proof fn lemma_prefix_grow_step(ws: Seq<u32>, i: int, j: int)
    requires
        all_positive(ws),
        0 <= i < j <= ws.len(),
    ensures
        weight_sum(ws.take(i)) < weight_sum(ws.take(j)),
    decreases j - i,
{
    assert(ws.take(j).drop_last() =~= ws.take(j - 1));
    if j - 1 > i {
        lemma_prefix_grow_step(ws, i, j - 1);
    }
}

pub proof fn lemma_prepend_assoc(a: Seq<char>, b: Seq<char>, r: (Result<Seq<char>, Seq<char>>, u64))
    ensures
        prepend(a, prepend(b, r)) == prepend(a + b, r),
{
    if let Ok(y) = r.0 {
        assert(a + (b + y) =~= (a + b) + y);
    }
}

/// The message when expanding rule `name` nests too deeply.
fn depth_error(name: &String) -> (r: String)
    ensures
        r@ == depth_message(name@),
{
    let mut s = String::from_str("generation exceeded the maximum depth (100) while expanding rule '");
    s.append(name.as_str());
    s.append("' - the grammar likely has a rule that refers back to itself with no way to stop");
    s
}

/// The levels of nesting left at depth `depth`: none beyond the limit.
pub open spec fn levels_left(depth: int) -> nat {
    if depth > MAX_DEPTH {
        0
    } else {
        (MAX_DEPTH + 1 - depth) as nat
    }
}

/// Expands rule `rule_name` at nesting depth `depth`, appending to `out`.
/// Beyond the depth limit it fails at once, leaving `out` and the
/// generator as they were; otherwise it only appends to `out`.
fn expand(grammar: &Grammar, rule_name: &String, rng: &mut Rng, out: &mut String, depth: usize) -> (r:
    Result<(), String>)
    requires
        grammar_wf(grammar@),
        depth <= MAX_DEPTH ==> has_rule(grammar@, rule_name@),
    ensures
        ({
            let (res, s) = gen_rule(grammar@, rule_name@, levels_left(depth as int), old(rng)@);
            &&& final(rng)@ == s
            &&& match r {
                Ok(_) => res matches Ok(x) && final(out)@ == old(out)@ + x,
                Err(m) => res matches Err(n) && m@ == depth_message(n),
            }
        }),
        old(out)@.is_prefix_of(final(out)@),
        depth > MAX_DEPTH ==> {
            &&& r matches Err(m) && m@ == depth_message(rule_name@)
            &&& final(out)@ == old(out)@
            &&& final(rng)@ == old(rng)@
        },
    decreases levels_left(depth as int), 1nat,
{
    if depth > MAX_DEPTH {
        return Err(depth_error(rule_name));
    }
    let ghost g = grammar@;
    let ri = match rule_index(&grammar.rules, rule_name) {
        Some(ri) => ri,
        None => {
            return Err(depth_error(rule_name));
        },
    };
    let rule = &grammar.rules[ri];
    assert(g[ri as int] == rule@);
    let mut weights: Vec<u32> = Vec::new();
    let mut k: usize = 0;
    while k < rule.alternatives.len()
        invariant
            k <= rule.alternatives.len(),
            weights@ == weights_of(alts_model(rule.alternatives@)).take(k as int),
        decreases rule.alternatives.len() - k,
    {
        weights.push(rule.alternatives[k].weight);
        k = k + 1;
        assert(weights@ =~= weights_of(alts_model(rule.alternatives@)).take(k as int));
    }
    assert(weights@ =~= weights_of(alts_model(rule.alternatives@)));
    assert(all_positive(weights@)) by {
        assert forall|a: int| 0 <= a < weights@.len() implies weights@[a] >= 1 by {
            assert(g[ri as int].alternatives[a].weight >= 1);
        }
    }
    let choice = rng.weighted_index(&weights);
    let alt = &rule.alternatives[choice];
    assert(parts_model(alt.parts@) == g[ri as int].alternatives[choice as int].parts);
    expand_parts(grammar, &alt.parts, rng, out, depth)
}

/// Expands the parts `parts` of an alternative at nesting depth `depth`,
/// appending to `out`.
fn expand_parts(
    grammar: &Grammar,
    parts: &Vec<Part>,
    rng: &mut Rng,
    out: &mut String,
    depth: usize,
) -> (r: Result<(), String>)
    requires
        grammar_wf(grammar@),
        depth <= MAX_DEPTH,
        forall|p: int| 0 <= p < parts.len() ==> part_ok(grammar@, #[trigger] parts_model(parts@)[p]),
    ensures
        ({
            let (res, s) = gen_parts(
                grammar@,
                parts_model(parts@),
                (MAX_DEPTH + 1 - depth) as nat,
                old(rng)@,
            );
            &&& final(rng)@ == s
            &&& match r {
                Ok(_) => res matches Ok(x) && final(out)@ == old(out)@ + x,
                Err(m) => res matches Err(n) && m@ == depth_message(n),
            }
        }),
        old(out)@.is_prefix_of(final(out)@),
    decreases levels_left(depth as int), 0nat,
{
    let ghost g = grammar@;
    let ghost b = (MAX_DEPTH + 1 - depth) as nat;
    let ghost ps = parts_model(parts@);
    let ghost whole = gen_parts(g, ps, b, rng@);
    let ghost start = out@;
    let mut i: usize = 0;
    assert(ps.skip(0) =~= ps);
    assert(out@.skip(start.len() as int) =~= Seq::<char>::empty());
    assert(whole == prepend(Seq::<char>::empty(), whole));
    while i < parts.len()
        invariant
            i <= parts.len(),
            g == grammar@,
            grammar_wf(g),
            b == MAX_DEPTH + 1 - depth,
            depth <= MAX_DEPTH,
            ps == parts_model(parts@),
            forall|p: int| 0 <= p < parts.len() ==> part_ok(g, #[trigger] ps[p]),
            out@.len() >= start.len(),
            out@ == start + out@.skip(start.len() as int),
            whole == prepend(out@.skip(start.len() as int), gen_parts(g, ps.skip(i as int), b, rng@)),
            whole == gen_parts(g, ps, b, old(rng)@),
            start == old(out)@,
        decreases parts.len() - i,
    {
        let ghost acc = out@.skip(start.len() as int);
        let ghost rest = ps.skip(i as int);
        let ghost s0 = rng@;
        assert(rest.drop_first() =~= ps.skip(i + 1));
        assert(rest[0] == ps[i as int]);
        assert(part_ok(g, ps[i as int]));
        match &parts[i] {
            Part::Literal(text) => {
                out.append(text.as_str());
                assert(out@.skip(start.len() as int) =~= acc + text@);
                assert(out@ =~= start + out@.skip(start.len() as int));
                assert(gen_parts(g, rest, b, s0) == prepend(text@, gen_parts(g, ps.skip(i + 1), b, s0)));
                proof {
                    lemma_prepend_assoc(acc, text@, gen_parts(g, ps.skip(i + 1), b, s0));
                }
            },
            Part::CharClass(chars) => {
                let idx = rng.uniform_index(chars.len());
                push_char(out, chars[idx]);
                assert(out@.skip(start.len() as int) =~= acc + seq![chars@[idx as int]]);
                assert(out@ =~= start + out@.skip(start.len() as int));
                assert(gen_parts(g, rest, b, s0) == prepend(
                    seq![chars@[idx as int]],
                    gen_parts(g, ps.skip(i + 1), b, rng@),
                ));
                proof {
                    lemma_prepend_assoc(acc, seq![chars@[idx as int]], gen_parts(g, ps.skip(i + 1), b, rng@));
                }
            },
            Part::Reference { name, .. } => {
                let ghost before = out@;
                let ghost inner = gen_rule(g, name@, (b - 1) as nat, s0);
                match expand(grammar, name, rng, out, depth + 1) {
                    Ok(()) => {
                        let ghost x = out@.skip(before.len() as int);
                        proof {
                            if let Ok(y) = inner.0 {
                                assert(out@.skip(before.len() as int) =~= y);
                            }
                        }
                        assert(out@ =~= before + x);
                        assert(out@.skip(start.len() as int) =~= acc + x);
                        assert(out@ =~= start + out@.skip(start.len() as int));
                        assert(inner.0 == Ok::<Seq<char>, Seq<char>>(x));
                        assert(gen_parts(g, rest, b, s0) == prepend(x, gen_parts(g, ps.skip(i + 1), b, rng@)));
                        proof {
                            lemma_prepend_assoc(acc, x, gen_parts(g, ps.skip(i + 1), b, rng@));
                        }
                    },
                    Err(m) => {
                        assert(gen_parts(g, rest, b, s0) == (inner.0, inner.1));
                        return Err(m);
                    },
                }
            },
        }
        i = i + 1;
    }
    assert(ps.skip(i as int) =~= Seq::<PartModel>::empty());
    assert(out@ =~= start + out@.skip(start.len() as int));
    Ok(())
}

/// Expands rule `start` of `grammar` into a name.
///
/// The result is exactly [`generation`] from the generator's state: the
/// name, or the depth error for the rule whose expansion nested too deeply;
/// the generator ends in the state that generation leaves.
pub fn generate(grammar: &Grammar, start: &str, rng: &mut Rng) -> (r: Result<String, String>)
    requires
        grammar_wf(grammar@),
        has_rule(grammar@, start@),
    ensures
        ({
            let (res, s) = generation(grammar@, start@, old(rng)@);
            &&& final(rng)@ == s
            &&& match r {
                Ok(name) => res == Ok::<Seq<char>, Seq<char>>(name@),
                Err(m) => res matches Err(n) && m@ == depth_message(n),
            }
        }),
{
    let mut out = String::new();
    let start_name = String::from_str(start);
    match expand(grammar, &start_name, rng, &mut out, 0) {
        Ok(()) => {
            assert(out@ =~= Seq::<char>::empty() + out@);
            Ok(out)
        },
        Err(m) => Err(m),
    }
}


// ---------------------------------------------------------------------------
// The language of a grammar, and when generation succeeds
// ---------------------------------------------------------------------------

/// `w` derives from rule `name` with `b` levels of nesting left: it is the
/// text of one of the rule's alternatives.
pub open spec fn derives_rule(g: Seq<RuleModel>, name: Seq<char>, b: nat, w: Seq<char>) -> bool
    decreases b, 1nat, 0nat,
{
    if b == 0 {
        false
    } else {
        match find_rule(g, name) {
            None => false,
            Some(ri) => exists|a: int|
                0 <= a < g[ri as int].alternatives.len() && derives_parts(
                    g,
                    #[trigger] g[ri as int].alternatives[a].parts,
                    b,
                    w,
                ),
        }
    }
}

/// `w` derives from the parts `ps`: each literal as it stands, one
/// character of each class, and for each reference a text that derives
/// from the rule it names, one level deeper.
pub open spec fn derives_parts(g: Seq<RuleModel>, ps: Seq<PartModel>, b: nat, w: Seq<char>) -> bool
    decreases b, 0nat, ps.len(),
{
    if ps.len() == 0 {
        w.len() == 0
    } else {
        match ps[0] {
            PartModel::Literal(t) => t.is_prefix_of(w) && derives_parts(
                g,
                ps.drop_first(),
                b,
                w.skip(t.len() as int),
            ),
            PartModel::CharClass(cs) => w.len() > 0 && cs.contains(w[0]) && derives_parts(
                g,
                ps.drop_first(),
                b,
                w.drop_first(),
            ),
            PartModel::Reference { name, .. } => b > 0 && exists|k: int|
                0 <= k <= w.len() && derives_rule(g, name, (b - 1) as nat, #[trigger] w.take(k))
                    && derives_parts(g, ps.drop_first(), b, w.skip(k)),
        }
    }
}

/// Every part among `ps` can be expanded (see [`part_ok`]).
pub open spec fn parts_expandable(g: Seq<RuleModel>, ps: Seq<PartModel>) -> bool {
    forall|p: int| 0 <= p < ps.len() ==> part_ok(g, #[trigger] ps[p])
}

proof fn lemma_pick_in_range(alts: Seq<AltModel>, s: u64)
    requires
        alts.len() > 0,
        forall|a: int| 0 <= a < alts.len() ==> 1 <= (#[trigger] alts[a]).weight <= u32::MAX,
    ensures
        0 <= pick(weights_of(alts), (draw(s) as int) % (weight_sum(weights_of(alts)) as int))
            < alts.len(),
{
    let ws = weights_of(alts);
    assert(all_positive(ws)) by {
        assert forall|i: int| 0 <= i < ws.len() implies ws[i] >= 1 by {
            assert(ws[i] == alts[i].weight as u32);
        }
    }
    lemma_weight_sum_positive(ws);
    lemma_pick_share(ws, (draw(s) as int) % (weight_sum(ws) as int));
}

proof fn lemma_rule_derives(g: Seq<RuleModel>, name: Seq<char>, b: nat, s: u64)
    requires
        grammar_wf(g),
    ensures
        gen_rule(g, name, b, s).0 matches Ok(w) ==> derives_rule(g, name, b, w),
    decreases b, 1nat, 0nat,
{
    if b > 0 {
        if let Some(ri) = find_rule(g, name) {
            let ri = ri as int;
            crate::grammar::lemma_find_rule_found(g, name);
            let alts = g[ri].alternatives;
            lemma_pick_in_range(alts, s);
            let i = pick(weights_of(alts), (draw(s) as int) % (weight_sum(weights_of(alts)) as int));
            assert(parts_expandable(g, alts[i].parts));
            lemma_parts_derive(g, alts[i].parts, b, advance(s));
        }
    }
}

proof fn lemma_parts_derive(g: Seq<RuleModel>, ps: Seq<PartModel>, b: nat, s: u64)
    requires
        grammar_wf(g),
        parts_expandable(g, ps),
    ensures
        gen_parts(g, ps, b, s).0 matches Ok(w) ==> derives_parts(g, ps, b, w),
    decreases b, 0nat, ps.len(),
{
    if ps.len() > 0 {
        let rest = ps.drop_first();
        assert(parts_expandable(g, rest)) by {
            assert forall|p: int| 0 <= p < rest.len() implies part_ok(g, #[trigger] rest[p]) by {
                assert(rest[p] == ps[p + 1]);
            }
        }
        assert(part_ok(g, ps[0]));
        match ps[0] {
            PartModel::Literal(t) => {
                lemma_parts_derive(g, rest, b, s);
                if let Ok(w1) = gen_parts(g, rest, b, s).0 {
                    assert((t + w1).skip(t.len() as int) =~= w1);
                    assert(t.is_prefix_of(t + w1)) by {
                        assert((t + w1).subrange(0, t.len() as int) =~= t);
                    }
                }
            },
            PartModel::CharClass(cs) => {
                lemma_parts_derive(g, rest, b, advance(s));
                if let Ok(w1) = gen_parts(g, rest, b, advance(s)).0 {
                    let idx = (draw(s) as int) % (cs.len() as int);
                    let w = seq![cs[idx]] + w1;
                    assert(w[0] == cs[idx]);
                    assert(cs.contains(w[0]));
                    assert(w.drop_first() =~= w1);
                }
            },
            PartModel::Reference { name, .. } => {
                if b > 0 {
                    let inner = gen_rule(g, name, (b - 1) as nat, s);
                    lemma_rule_derives(g, name, (b - 1) as nat, s);
                    lemma_parts_derive(g, rest, b, inner.1);
                    if let Ok(x) = inner.0 {
                        if let Ok(w1) = gen_parts(g, rest, b, inner.1).0 {
                            let k = x.len() as int;
                            assert((x + w1).take(k) =~= x);
                            assert((x + w1).skip(k) =~= w1);
                        }
                    }
                }
            },
        }
    }
}

/// Law: every name that generation gives lies in the language of the
/// grammar from the start rule, with at most 100 levels of nesting.
pub proof fn lemma_generated_in_language(g: Seq<RuleModel>, start: Seq<char>, s: u64)
    requires
        grammar_wf(g),
    ensures
        generation(g, start, s).0 matches Ok(w) ==> derives_rule(g, start, 101, w),
{
    lemma_rule_derives(g, start, (MAX_DEPTH + 1) as nat, s);
}

/// Every chain of references from rule `name` has fewer than `b` links.
pub open spec fn bounded_rule(g: Seq<RuleModel>, name: Seq<char>, b: nat) -> bool
    decreases b, 1nat, 0nat,
{
    if b == 0 {
        false
    } else {
        match find_rule(g, name) {
            None => false,
            Some(ri) => forall|a: int|
                0 <= a < g[ri as int].alternatives.len() ==> bounded_parts(
                    g,
                    #[trigger] g[ri as int].alternatives[a].parts,
                    b,
                ),
        }
    }
}

/// Every reference among `ps` names a rule bounded one level deeper.
pub open spec fn bounded_parts(g: Seq<RuleModel>, ps: Seq<PartModel>, b: nat) -> bool
    decreases b, 0nat, ps.len(),
{
    if ps.len() == 0 {
        true
    } else {
        (match ps[0] {
            PartModel::Reference { name, .. } => b > 0 && bounded_rule(g, name, (b - 1) as nat),
            _ => true,
        }) && bounded_parts(g, ps.drop_first(), b)
    }
}

proof fn lemma_bounded_rule_ok(g: Seq<RuleModel>, name: Seq<char>, b: nat, s: u64)
    requires
        grammar_wf(g),
        bounded_rule(g, name, b),
    ensures
        gen_rule(g, name, b, s).0 is Ok,
    decreases b, 1nat, 0nat,
{
    let ri = find_rule(g, name)->Some_0 as int;
    crate::grammar::lemma_find_rule_found(g, name);
    let alts = g[ri].alternatives;
    lemma_pick_in_range(alts, s);
    let i = pick(weights_of(alts), (draw(s) as int) % (weight_sum(weights_of(alts)) as int));
    assert(bounded_parts(g, alts[i].parts, b));
    assert(parts_expandable(g, alts[i].parts));
    lemma_bounded_parts_ok(g, alts[i].parts, b, advance(s));
}

proof fn lemma_bounded_parts_ok(g: Seq<RuleModel>, ps: Seq<PartModel>, b: nat, s: u64)
    requires
        grammar_wf(g),
        parts_expandable(g, ps),
        bounded_parts(g, ps, b),
    ensures
        gen_parts(g, ps, b, s).0 is Ok,
    decreases b, 0nat, ps.len(),
{
    if ps.len() > 0 {
        let rest = ps.drop_first();
        assert(parts_expandable(g, rest)) by {
            assert forall|p: int| 0 <= p < rest.len() implies part_ok(g, #[trigger] rest[p]) by {
                assert(rest[p] == ps[p + 1]);
            }
        }
        match ps[0] {
            PartModel::Literal(t) => {
                lemma_bounded_parts_ok(g, rest, b, s);
            },
            PartModel::CharClass(cs) => {
                lemma_bounded_parts_ok(g, rest, b, advance(s));
            },
            PartModel::Reference { name, .. } => {
                let inner = gen_rule(g, name, (b - 1) as nat, s);
                lemma_bounded_rule_ok(g, name, (b - 1) as nat, s);
                lemma_bounded_parts_ok(g, rest, b, inner.1);
            },
        }
    }
}

/// Law: generation fails only through nesting: when every chain of
/// references from the start rule has at most 100 links, generation gives a
/// name, whatever the generator's state.
pub proof fn lemma_shallow_generation_succeeds(g: Seq<RuleModel>, start: Seq<char>, s: u64)
    requires
        grammar_wf(g),
        bounded_rule(g, start, 101),
    ensures
        generation(g, start, s).0 is Ok,
{
    lemma_bounded_rule_ok(g, start, (MAX_DEPTH + 1) as nat, s);
}

/// The state after `k` steps from `s`.
pub open spec fn advance_n(s: u64, k: nat) -> u64
    decreases k,
{
    if k == 0 {
        s
    } else {
        advance(advance_n(s, (k - 1) as nat))
    }
}

/// Law: after `k` draws the state has moved by `k` times the increment,
/// wrapping.
pub proof fn lemma_advance_n(s: u64, k: nat)
    ensures
        advance_n(s, k) as int == (s + k * GOLDEN_GAMMA) % 0x1_0000_0000_0000_0000,
    decreases k,
{
    let m: int = 0x1_0000_0000_0000_0000;
    if k == 0 {
        assert(s as int % m == s) by {
            vstd::arithmetic::div_mod::lemma_small_mod(s as nat, m as nat);
        }
    } else {
        lemma_advance_n(s, (k - 1) as nat);
        let prev = advance_n(s, (k - 1) as nat) as int;
        let x = s + (k - 1) * GOLDEN_GAMMA;
        assert(advance(prev as u64) as int == (prev + GOLDEN_GAMMA) % m);
        vstd::arithmetic::div_mod::lemma_add_mod_noop(x, GOLDEN_GAMMA as int, m);
        vstd::arithmetic::div_mod::lemma_small_mod(GOLDEN_GAMMA as nat, m as nat);
        vstd::arithmetic::div_mod::lemma_mod_twice(x, m);
        assert(x + GOLDEN_GAMMA == s + k * GOLDEN_GAMMA) by (nonlinear_arith)
            requires
                x == s + (k - 1) * GOLDEN_GAMMA,
        ;
    }
}


// ---------------------------------------------------------------------------
// Laws of weighted choice
// ---------------------------------------------------------------------------

/// The total weight of the alternatives before index `i`.
pub open spec fn weight_before(alts: Seq<AltModel>, i: int) -> nat
    decreases i,
{
    if i <= 0 {
        0
    } else {
        weight_before(alts, i - 1) + alts[i - 1].weight
    }
}

proof fn lemma_weight_before(alts: Seq<AltModel>, i: int)
    requires
        0 <= i <= alts.len(),
        forall|a: int| 0 <= a < alts.len() ==> (#[trigger] alts[a]).weight <= u32::MAX,
    ensures
        weight_sum(weights_of(alts).take(i)) == weight_before(alts, i),
    decreases i,
{
    if i > 0 {
        let ws = weights_of(alts);
        lemma_weight_before(alts, i - 1);
        assert(ws.take(i).drop_last() =~= ws.take(i - 1));
        assert(ws.take(i).last() == alts[i - 1].weight as u32);
    } else {
        assert(weights_of(alts).take(i) =~= Seq::<u32>::empty());
    }
}

/// Law: generation honours the weights of a rule's alternatives. With
/// alternatives of weights `w_0, .., w_{n-1}` and the generator in state
/// `s`, let `t` be `draw(s)` modulo `w_0 + .. + w_{n-1}`: exactly one
/// alternative `i` has `w_0 + .. + w_{i-1} <= t < w_0 + .. + w_i`, and the
/// rule expands into that alternative's parts. So alternative `i` wins for
/// exactly `w_i` of the residues.
pub proof fn lemma_weighted_choice(g: Seq<RuleModel>, k: int, b: nat, s: u64)
    requires
        grammar_wf(g),
        0 <= k < g.len(),
        b > 0,
    ensures
        ({
            let alts = g[k].alternatives;
            let total = weight_before(alts, alts.len() as int);
            let t = (draw(s) as int) % (total as int);
            &&& total > 0
            &&& exists|i: int|
                0 <= i < alts.len() && #[trigger] weight_before(alts, i) <= t < weight_before(
                    alts,
                    i + 1,
                )
            &&& forall|i: int|
                0 <= i < alts.len() && #[trigger] weight_before(alts, i) <= t < weight_before(
                    alts,
                    i + 1,
                )
                    ==> gen_rule(g, g[k].name, b, s) == gen_parts(
                    g,
                    alts[i].parts,
                    b,
                    advance(s),
                )
        }),
{
    let name = g[k].name;
    let alts = g[k].alternatives;
    let ws = weights_of(alts);
    assert forall|a: int| 0 <= a < alts.len() implies (#[trigger] alts[a]).weight <= u32::MAX by {
        assert(1 <= g[k].alternatives[a].weight <= u32::MAX);
    }
    assert(all_positive(ws)) by {
        assert forall|i: int| 0 <= i < ws.len() implies ws[i] >= 1 by {
            assert(1 <= g[k].alternatives[i].weight <= u32::MAX);
            assert(ws[i] == alts[i].weight as u32);
        }
    }
    assert forall|i: int| 0 <= i <= alts.len() implies weight_sum(#[trigger] ws.take(i))
        == weight_before(alts, i) by {
        lemma_weight_before(alts, i);
    }
    assert(ws.take(ws.len() as int) =~= ws);
    lemma_weight_sum_positive(ws);
    let total = weight_before(alts, alts.len() as int);
    let t = (draw(s) as int) % (total as int);
    lemma_pick_share(ws, t);
    crate::grammar::lemma_find_rule_first(g, name, k);
    let p = pick(ws, t);
    assert(weight_sum(ws.take(p + 1)) == weight_before(alts, p + 1));
    assert(0 <= p < alts.len() && #[trigger] weight_before(alts, p) <= t < weight_before(
        alts,
        p + 1,
    ));
    assert forall|i: int|
        0 <= i < alts.len() && #[trigger] weight_before(alts, i) <= t < weight_before(alts, i + 1)
            implies gen_rule(g, name, b, s) == gen_parts(g, alts[i].parts, b, advance(s)) by {
        assert(weight_sum(ws.take(i + 1)) == weight_before(alts, i + 1));
        assert(p == i);
    }
}

// ---------------------------------------------------------------------------
// Laws of alternatives without references
// ---------------------------------------------------------------------------

/// How many character classes `ps` holds.
pub open spec fn class_count(ps: Seq<PartModel>) -> nat
    decreases ps.len(),
{
    if ps.len() == 0 {
        0
    } else {
        class_count(ps.drop_first()) + if ps[0] is CharClass {
            1nat
        } else {
            0nat
        }
    }
}

/// The length of what `ps` expands to when it holds no reference: each
/// literal's length, and one for each class.
pub open spec fn flat_len(ps: Seq<PartModel>) -> nat
    decreases ps.len(),
{
    if ps.len() == 0 {
        0
    } else {
        flat_len(ps.drop_first()) + match ps[0] {
            PartModel::Literal(t) => t.len(),
            _ => 1,
        }
    }
}

proof fn lemma_advance_n_front(s: u64, k: nat)
    ensures
        advance_n(advance(s), k) == advance_n(s, k + 1),
    decreases k,
{
    if k > 0 {
        lemma_advance_n_front(s, (k - 1) as nat);
        assert(advance_n(advance(s), k) == advance(advance_n(advance(s), (k - 1) as nat)));
        assert(advance_n(s, k + 1) == advance(advance_n(s, k)));
    } else {
        assert(advance_n(s, 1) == advance(advance_n(s, 0)));
    }
}

/// Law: parts without references expand without fail: literals as they
/// stand, with no draw, and one character for each class, with one draw
/// each; so the generator moves on by exactly as many steps as there are
/// classes.
pub proof fn lemma_flat_parts(g: Seq<RuleModel>, ps: Seq<PartModel>, b: nat, s: u64)
    requires
        forall|p: int| 0 <= p < ps.len() ==> !((#[trigger] ps[p]) is Reference),
    ensures
        gen_parts(g, ps, b, s).0 matches Ok(w) && w.len() == flat_len(ps),
        gen_parts(g, ps, b, s).1 == advance_n(s, class_count(ps)),
    decreases ps.len(),
{
    if ps.len() > 0 {
        let rest = ps.drop_first();
        assert forall|p: int| 0 <= p < rest.len() implies !((#[trigger] rest[p]) is Reference) by {
            assert(rest[p] == ps[p + 1]);
        }
        assert(!(ps[0] is Reference));
        match ps[0] {
            PartModel::Literal(t) => {
                lemma_flat_parts(g, rest, b, s);
            },
            PartModel::CharClass(cs) => {
                lemma_flat_parts(g, rest, b, advance(s));
                lemma_advance_n_front(s, class_count(rest));
            },
            PartModel::Reference { .. } => {},
        }
    }
}

/// Every alternative of every rule refers to a rule: no expansion can end.
pub open spec fn endless(g: Seq<RuleModel>) -> bool {
    forall|i: int, a: int|
        0 <= i < g.len() && 0 <= a < g[i].alternatives.len() ==> has_reference(
            #[trigger] g[i].alternatives[a].parts,
        )
}

/// `ps` holds a reference.
pub open spec fn has_reference(ps: Seq<PartModel>) -> bool {
    exists|p: int| 0 <= p < ps.len() && (#[trigger] ps[p]) is Reference
}

proof fn lemma_endless_rule(g: Seq<RuleModel>, name: Seq<char>, b: nat, s: u64)
    requires
        grammar_wf(g),
        endless(g),
    ensures
        gen_rule(g, name, b, s).0 is Err,
    decreases b, 1nat, 0nat,
{
    if b > 0 {
        if let Some(ri) = find_rule(g, name) {
            crate::grammar::lemma_find_rule_found(g, name);
            let alts = g[ri as int].alternatives;
            lemma_pick_in_range(alts, s);
            let i = pick(weights_of(alts), (draw(s) as int) % (weight_sum(weights_of(alts)) as int));
            assert(has_reference(g[ri as int].alternatives[i].parts));
            lemma_endless_parts(g, alts[i].parts, b, advance(s));
        }
    }
}

proof fn lemma_endless_parts(g: Seq<RuleModel>, ps: Seq<PartModel>, b: nat, s: u64)
    requires
        grammar_wf(g),
        endless(g),
        has_reference(ps),
    ensures
        gen_parts(g, ps, b, s).0 is Err,
    decreases b, 0nat, ps.len(),
{
    let rest = ps.drop_first();
    match ps[0] {
        PartModel::Reference { name, .. } => {
            if b > 0 {
                lemma_endless_rule(g, name, (b - 1) as nat, s);
            }
        },
        PartModel::Literal(t) => {
            let p = choose|p: int| 0 <= p < ps.len() && (#[trigger] ps[p]) is Reference;
            assert(rest[p - 1] == ps[p]);
            lemma_endless_parts(g, rest, b, s);
        },
        PartModel::CharClass(cs) => {
            let p = choose|p: int| 0 <= p < ps.len() && (#[trigger] ps[p]) is Reference;
            assert(rest[p - 1] == ps[p]);
            lemma_endless_parts(g, rest, b, advance(s));
        },
    }
}

/// Law: generation stops: from a grammar in which every alternative refers
/// to a rule, generation never gives a name, whatever the start rule and
/// the generator's state.
pub proof fn lemma_endless_generation_fails(g: Seq<RuleModel>, start: Seq<char>, s: u64)
    requires
        grammar_wf(g),
        endless(g),
    ensures
        generation(g, start, s).0 is Err,
{
    lemma_endless_rule(g, start, (MAX_DEPTH + 1) as nat, s);
}

} // verus!
