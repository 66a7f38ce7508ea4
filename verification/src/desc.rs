use vstd::prelude::*;

verus! {

/// Mathematical value of a `CommandDesc`: the argument list, the optional
/// working directory and the environment additions, all as character sequences.
#[verifier::ext_equal]
pub struct CommandDescView {
    pub args: Seq<Seq<char>>,
    pub cwd: Option<Seq<char>>,
    pub env: Seq<(Seq<char>, Seq<char>)>,
}

/// Canonical, hashable description of a command invocation.
///
/// The argument list is ordered (its first element is the executable and at
/// least one element is required); the environment additions are kept sorted
/// by variable name, so that two descriptors holding the same variables in
/// different insertion orders are equal and fingerprint identically.
#[derive(Debug, PartialEq, Eq)]
pub struct CommandDesc {
    args: Vec<String>,
    cwd: Option<String>,
    env: Vec<(String, String)>,
}

/// The environment bindings of a vector of string pairs, as sequences.
pub open spec fn env_view(s: Seq<(String, String)>) -> Seq<(Seq<char>, Seq<char>)> {
    s.map_values(|p: (String, String)| (p.0@, p.1@))
}

impl View for CommandDesc {
    type V = CommandDescView;

    closed spec fn view(&self) -> CommandDescView {
        CommandDescView {
            args: self.args@.map_values(|s: String| s@),
            cwd: match self.cwd {
                Some(s) => Some(s@),
                None => None,
            },
            env: env_view(self.env@),
        }
    }
}

/// The sequence of Unicode code points of a character sequence; names are
/// ordered and compared by their code points.
pub open spec fn cps(s: Seq<char>) -> Seq<u32> {
    s.map_values(|c: char| c as u32)
}

/// Strict lexicographic order on code-point sequences, compared from
/// position `i` on (a proper prefix sorts first).
pub open spec fn lex_lt_from(a: Seq<u32>, b: Seq<u32>, i: int) -> bool
    recommends
        0 <= i,
    decreases a.len() - i,
{
    if i >= b.len() {
        false
    } else if i >= a.len() {
        true
    } else if a[i] != b[i] {
        a[i] < b[i]
    } else {
        lex_lt_from(a, b, i + 1)
    }
}

/// Strict lexicographic order on code-point sequences.
pub open spec fn lex_lt(a: Seq<u32>, b: Seq<u32>) -> bool {
    lex_lt_from(a, b, 0)
}

/// Order on names: lexicographic by code point.
pub open spec fn name_lt(a: Seq<char>, b: Seq<char>) -> bool {
    lex_lt(cps(a), cps(b))
}

/// Two names spell the same code points.
pub open spec fn name_eq(a: Seq<char>, b: Seq<char>) -> bool {
    cps(a) == cps(b)
}

/// The environment additions are strictly sorted by variable name,
/// hence each name occurs at most once.
pub open spec fn env_sorted(env: Seq<(Seq<char>, Seq<char>)>) -> bool {
    forall|i: int, j: int|
        0 <= i < j < env.len() ==> name_lt(#[trigger] env[i].0, #[trigger] env[j].0)
}

/// Well-formedness of a descriptor value: a non-empty argument list and a
/// sorted environment mapping.
pub open spec fn desc_wf(v: CommandDescView) -> bool {
    &&& v.args.len() >= 1
    &&& env_sorted(v.env)
}

pub proof fn lemma_lex_from_irrefl(a: Seq<u32>, i: int)
    requires
        0 <= i,
    ensures
        !lex_lt_from(a, a, i),
    decreases a.len() - i,
{
    if i < a.len() {
        lemma_lex_from_irrefl(a, i + 1);
    }
}

pub proof fn lemma_lex_from_trans(a: Seq<u32>, b: Seq<u32>, c: Seq<u32>, i: int)
    requires
        0 <= i,
        lex_lt_from(a, b, i),
        lex_lt_from(b, c, i),
    ensures
        lex_lt_from(a, c, i),
    decreases b.len() - i,
{
    if i < a.len() && i < b.len() && i < c.len() && a[i] == b[i] && b[i] == c[i] {
        lemma_lex_from_trans(a, b, c, i + 1);
    }
}

pub proof fn lemma_name_trans(a: Seq<char>, b: Seq<char>, c: Seq<char>)
    requires
        name_lt(a, b),
        name_lt(b, c),
    ensures
        name_lt(a, c),
{
    lemma_lex_from_trans(cps(a), cps(b), cps(c), 0);
}

pub proof fn lemma_skip_zero(a: Seq<u32>)
    ensures
        a.skip(0) == a,
{
    assert forall|j: int| 0 <= j < a.len() implies #[trigger] a.skip(0)[j] == a[j] by {}
    assert(a.skip(0) =~= a);
}

pub proof fn lemma_skip_step(a: Seq<u32>, b: Seq<u32>, i: int)
    requires
        0 <= i < a.len(),
        i < b.len(),
        a[i] == b[i],
        a.skip(i + 1) == b.skip(i + 1),
    ensures
        a.skip(i) == b.skip(i),
{
    assert(a.skip(i + 1).len() == a.len() - (i + 1));
    assert(b.skip(i + 1).len() == b.len() - (i + 1));
    assert(a.skip(i + 1).len() == b.skip(i + 1).len());
    assert(a.len() == b.len());
    assert(a.skip(i).len() == a.len() - i);
    assert(b.skip(i).len() == b.len() - i);
    assert forall|j: int| 0 <= j < a.skip(i).len() implies #[trigger] a.skip(i)[j] == b.skip(i)[j] by {
        if j > 0 {
            assert(a.skip(i)[j] == a.skip(i + 1)[j - 1]);
            assert(b.skip(i)[j] == b.skip(i + 1)[j - 1]);
        } else {
            assert(a.skip(i)[0] == a[i]);
            assert(b.skip(i)[0] == b[i]);
        }
    }
    assert(a.skip(i) =~= b.skip(i));
}

pub proof fn lemma_lex_from_total(a: Seq<u32>, b: Seq<u32>, i: int)
    requires
        0 <= i <= a.len(),
        i <= b.len(),
    ensures
        lex_lt_from(a, b, i) || lex_lt_from(b, a, i) || a.skip(i) =~= b.skip(i),
    decreases a.len() - i,
{
    if i < a.len() && i < b.len() && a[i] == b[i] {
        lemma_lex_from_total(a, b, i + 1);
        if a.skip(i + 1) =~= b.skip(i + 1) {
            lemma_skip_step(a, b, i);
        }
    } else if i >= a.len() && i >= b.len() {
        assert(a.skip(i).len() == 0 && b.skip(i).len() == 0);
        assert(a.skip(i) =~= b.skip(i));
    }
}

/// Totality of the name order: two names are ordered one way or the other,
/// or they spell the same code points.
pub proof fn lemma_name_total(a: Seq<char>, b: Seq<char>)
    ensures
        name_lt(a, b) || name_lt(b, a) || name_eq(a, b),
{
    lemma_lex_from_total(cps(a), cps(b), 0);
    lemma_skip_zero(cps(a));
    lemma_skip_zero(cps(b));
}

/// Inserting `(k, v)` into an environment sequence sorted by name: an
/// existing binding of `k`'s name is replaced in place, a new name is
/// placed at its sorted position.
pub open spec fn spec_env_insert(
    env: Seq<(Seq<char>, Seq<char>)>,
    k: Seq<char>,
    v: Seq<char>,
) -> Seq<(Seq<char>, Seq<char>)>
    decreases env.len(),
{
    if env.len() == 0 {
        seq![(k, v)]
    } else if name_lt(k, env[0].0) {
        seq![(k, v)] + env
    } else if name_eq(k, env[0].0) {
        seq![(k, v)] + env.skip(1)
    } else {
        seq![env[0]] + spec_env_insert(env.skip(1), k, v)
    }
}

/// Folding a list of bindings into an environment, first to last.
pub open spec fn spec_env_insert_all(
    env: Seq<(Seq<char>, Seq<char>)>,
    pairs: Seq<(Seq<char>, Seq<char>)>,
) -> Seq<(Seq<char>, Seq<char>)>
    decreases pairs.len(),
{
    if pairs.len() == 0 {
        env
    } else {
        spec_env_insert(
            spec_env_insert_all(env, pairs.drop_last()),
            pairs.last().0,
            pairs.last().1,
        )
    }
}

pub proof fn lemma_env_insert_unfold(
    env: Seq<(Seq<char>, Seq<char>)>,
    k: Seq<char>,
    v: Seq<char>,
    i: int,
)
    requires
        0 <= i <= env.len(),
        forall|j: int| 0 <= j < i ==> name_lt(#[trigger] env[j].0, k),
    ensures
        spec_env_insert(env, k, v) == env.take(i) + spec_env_insert(env.skip(i), k, v),
    decreases i,
{
    if i == 0 {
        assert(env.take(0) + spec_env_insert(env.skip(0), k, v) =~= spec_env_insert(
            env.skip(0),
            k,
            v,
        ));
        assert(env.skip(0) =~= env);
    } else {
        lemma_env_insert_unfold(env, k, v, i - 1);
        let tail = env.skip(i - 1);
        assert(tail[0] == env[i - 1]);
        assert(name_lt(env[i - 1].0, k));
        assert(!name_lt(k, tail[0].0) && !name_eq(k, tail[0].0)) by {
            if name_eq(k, tail[0].0) {
                lemma_lex_from_irrefl(cps(k), 0);
            } else if name_lt(k, tail[0].0) {
                lemma_name_trans(env[i - 1].0, k, env[i - 1].0);
                lemma_lex_from_irrefl(cps(env[i - 1].0), 0);
            }
        }
        assert(spec_env_insert(tail, k, v) == seq![tail[0]] + spec_env_insert(tail.skip(1), k, v));
        assert(tail.skip(1) =~= env.skip(i));
        assert(env.take(i - 1) + (seq![tail[0]] + spec_env_insert(env.skip(i), k, v)) =~= env.take(
            i,
        ) + spec_env_insert(env.skip(i), k, v));
    }
}

/// A name is bound somewhere in the environment sequence.
pub open spec fn has_key(env: Seq<(Seq<char>, Seq<char>)>, key: Seq<char>) -> bool {
    exists|j: int| 0 <= j < env.len() && (#[trigger] env[j]).0 == key
}

/// Sorted insertion keeps the environment sorted, and introduces no name
/// other than `k` and those already present.
pub proof fn lemma_env_insert_props(env: Seq<(Seq<char>, Seq<char>)>, k: Seq<char>, v: Seq<char>)
    requires
        env_sorted(env),
    ensures
        env_sorted(spec_env_insert(env, k, v)),
        forall|m: int|
            0 <= m < spec_env_insert(env, k, v).len() ==> ((#[trigger] spec_env_insert(env, k, v)[m])
                == (k, v) || has_key(env, spec_env_insert(env, k, v)[m].0)),
    decreases env.len(),
{
    let r = spec_env_insert(env, k, v);
    if env.len() == 0 {
    } else if name_lt(k, env[0].0) {
        assert(r == seq![(k, v)] + env);
        assert forall|i: int, j: int| 0 <= i < j < r.len() implies name_lt(
            #[trigger] r[i].0,
            #[trigger] r[j].0,
        ) by {
            if i == 0 && j >= 2 {
                lemma_name_trans(k, env[0].0, env[j - 1].0);
            }
        }
        assert forall|m: int| 0 <= m < r.len() implies (#[trigger] r[m]) == (k, v) || has_key(
            env,
            r[m].0,
        ) by {
            if m >= 1 {
                assert(env[m - 1].0 == r[m].0);
            }
        }
    } else if name_eq(k, env[0].0) {
        assert(r == seq![(k, v)] + env.skip(1));
        assert forall|i: int, j: int| 0 <= i < j < r.len() implies name_lt(
            #[trigger] r[i].0,
            #[trigger] r[j].0,
        ) by {
            if i == 0 {
                assert(r[j].0 == env[j].0);
                assert(name_lt(env[0].0, env[j].0));
                assert(lex_lt(cps(env[0].0), cps(env[j].0)));
            } else {
                assert(r[i].0 == env[i].0 && r[j].0 == env[j].0);
            }
        }
        assert forall|m: int| 0 <= m < r.len() implies (#[trigger] r[m]) == (k, v) || has_key(
            env,
            r[m].0,
        ) by {
            if m >= 1 {
                assert(env[m].0 == r[m].0);
            }
        }
    } else {
        lemma_name_total(k, env[0].0);
        assert(name_lt(env[0].0, k));
        let tail = env.skip(1);
        assert(env_sorted(tail)) by {
            assert forall|i: int, j: int| 0 <= i < j < tail.len() implies name_lt(
                #[trigger] tail[i].0,
                #[trigger] tail[j].0,
            ) by {
                assert(tail[i] == env[i + 1] && tail[j] == env[j + 1]);
            }
        }
        lemma_env_insert_props(tail, k, v);
        let rt = spec_env_insert(tail, k, v);
        assert(r == seq![env[0]] + rt);
        assert forall|i: int, j: int| 0 <= i < j < r.len() implies name_lt(
            #[trigger] r[i].0,
            #[trigger] r[j].0,
        ) by {
            if i == 0 {
                assert(rt[j - 1] == (k, v) || has_key(tail, rt[j - 1].0));
                if rt[j - 1] == (k, v) {
                    assert(name_lt(env[0].0, k));
                } else {
                    let w = choose|w: int| 0 <= w < tail.len() && (#[trigger] tail[w]).0 == rt[j
                        - 1].0;
                    assert(tail[w] == env[w + 1]);
                    assert(name_lt(env[0].0, env[w + 1].0));
                }
            } else {
                assert(r[i].0 == rt[i - 1].0 && r[j].0 == rt[j - 1].0);
            }
        }
        assert forall|m: int| 0 <= m < r.len() implies (#[trigger] r[m]) == (k, v) || has_key(
            env,
            r[m].0,
        ) by {
            if m == 0 {
                assert(env[0].0 == r[0].0);
            } else {
                assert(r[m] == rt[m - 1]);
                if rt[m - 1] != (k, v) {
                    let w = choose|w: int| 0 <= w < tail.len() && (#[trigger] tail[w]).0 == rt[m
                        - 1].0;
                    assert(env[w + 1].0 == r[m].0);
                }
            }
        }
    }
}

/// Folding bindings into a sorted environment keeps it sorted.
pub proof fn lemma_env_insert_all_sorted(
    env: Seq<(Seq<char>, Seq<char>)>,
    pairs: Seq<(Seq<char>, Seq<char>)>,
)
    requires
        env_sorted(env),
    ensures
        env_sorted(spec_env_insert_all(env, pairs)),
    decreases pairs.len(),
{
    if pairs.len() > 0 {
        lemma_env_insert_all_sorted(env, pairs.drop_last());
        lemma_env_insert_props(spec_env_insert_all(env, pairs.drop_last()), pairs.last().0, pairs.last().1);
    }
}

pub proof fn lemma_name_asym(a: Seq<char>, b: Seq<char>)
    requires
        name_lt(a, b),
    ensures
        !name_lt(b, a),
        !name_eq(a, b),
{
    if name_lt(b, a) {
        lemma_name_trans(a, b, a);
        lemma_lex_from_irrefl(cps(a), 0);
    }
    if name_eq(a, b) {
        lemma_lex_from_irrefl(cps(a), 0);
    }
}

proof fn lemma_env_insert_comm_lt(
    env: Seq<(Seq<char>, Seq<char>)>,
    k1: Seq<char>,
    v1: Seq<char>,
    k2: Seq<char>,
    v2: Seq<char>,
)
    requires
        env_sorted(env),
        name_lt(k1, k2),
    ensures
        spec_env_insert(spec_env_insert(env, k1, v1), k2, v2) == spec_env_insert(
            spec_env_insert(env, k2, v2),
            k1,
            v1,
        ),
    decreases env.len(),
{
    lemma_name_asym(k1, k2);
    let l1 = spec_env_insert(env, k1, v1);
    let l2 = spec_env_insert(env, k2, v2);
    if env.len() == 0 {
        assert(l1 == seq![(k1, v1)]);
        assert(l1[0] == (k1, v1));
        assert(l1.skip(1) =~= Seq::<(Seq<char>, Seq<char>)>::empty());
        assert(spec_env_insert(l1, k2, v2) == seq![l1[0]] + spec_env_insert(l1.skip(1), k2, v2));
        assert(spec_env_insert(l1, k2, v2) =~= seq![(k1, v1), (k2, v2)]);
        assert(spec_env_insert(l2, k1, v1) == seq![(k1, v1)] + l2);
        assert(spec_env_insert(l2, k1, v1) =~= seq![(k1, v1), (k2, v2)]);
    } else {
        let h = env[0];
        let t = env.skip(1);
        assert(env_sorted(t)) by {
            assert forall|i: int, j: int| 0 <= i < j < t.len() implies name_lt(
                #[trigger] t[i].0,
                #[trigger] t[j].0,
            ) by {
                assert(t[i] == env[i + 1] && t[j] == env[j + 1]);
            }
        }
        if name_lt(k1, h.0) || name_eq(k1, h.0) {
            // k1 lands at or before the head; k2 sorts after k1, so
            // inserting k2 into the result walks past (k1, v1) first.
            assert(name_eq(k1, h.0) ==> !name_lt(k1, h.0)) by {
                if name_eq(k1, h.0) {
                    lemma_lex_from_irrefl(cps(k1), 0);
                }
            }
            let rest1 = if name_eq(k1, h.0) {
                env.skip(1)
            } else {
                env
            };
            assert(l1 == seq![(k1, v1)] + rest1);
            assert(l1[0] == (k1, v1));
            assert(l1.skip(1) =~= rest1);
            assert(spec_env_insert(l1, k2, v2) == seq![(k1, v1)] + spec_env_insert(
                rest1,
                k2,
                v2,
            ));
            if name_lt(k1, h.0) {
                // on the other side k2 goes somewhere into env, whose head
                // still sorts after k1, so k1 is prepended
                if name_lt(k2, h.0) {
                    assert(l2 == seq![(k2, v2)] + env);
                    assert(spec_env_insert(l2, k1, v1) == seq![(k1, v1)] + l2);
                } else if name_eq(k2, h.0) {
                    assert(l2 == seq![(k2, v2)] + env.skip(1));
                    assert(spec_env_insert(l2, k1, v1) == seq![(k1, v1)] + l2);
                } else {
                    assert(l2 == seq![h] + spec_env_insert(t, k2, v2));
                    assert(l2[0] == h);
                    assert(spec_env_insert(l2, k1, v1) == seq![(k1, v1)] + l2);
                }
                assert(spec_env_insert(l2, k1, v1) =~= seq![(k1, v1)] + spec_env_insert(
                    env,
                    k2,
                    v2,
                ));
            } else {
                // k1 replaces the head, so k2 sorts after the head too
                lemma_name_asym(k1, k2);
                assert(!name_lt(k2, h.0) && !name_eq(k2, h.0)) by {
                    if name_lt(k2, h.0) {
                        lemma_name_trans(k1, k2, h.0);
                        // name_lt(k1, h.0) contradicts name_eq(k1, h.0)
                        lemma_lex_from_irrefl(cps(k1), 0);
                    }
                    if name_eq(k2, h.0) {
                        lemma_lex_from_irrefl(cps(k1), 0);
                    }
                }
                assert(l2 == seq![h] + spec_env_insert(t, k2, v2));
                assert(l2[0] == h);
                assert(l2.skip(1) =~= spec_env_insert(t, k2, v2));
                assert(spec_env_insert(l2, k1, v1) == seq![(k1, v1)] + spec_env_insert(
                    t,
                    k2,
                    v2,
                ));
            }
        } else {
            lemma_name_total(k1, h.0);
            assert(name_lt(h.0, k1));
            lemma_name_trans(h.0, k1, k2);
            lemma_name_asym(h.0, k1);
            lemma_name_asym(h.0, k2);
            // both insertions walk past the head
            assert(l1 == seq![h] + spec_env_insert(t, k1, v1));
            assert(l2 == seq![h] + spec_env_insert(t, k2, v2));
            assert(l1[0] == h && l2[0] == h);
            assert(l1.skip(1) =~= spec_env_insert(t, k1, v1));
            assert(l2.skip(1) =~= spec_env_insert(t, k2, v2));
            assert(spec_env_insert(l1, k2, v2) == seq![h] + spec_env_insert(
                spec_env_insert(t, k1, v1),
                k2,
                v2,
            ));
            assert(spec_env_insert(l2, k1, v1) == seq![h] + spec_env_insert(
                spec_env_insert(t, k2, v2),
                k1,
                v1,
            ));
            lemma_env_insert_comm_lt(t, k1, v1, k2, v2);
        }
    }
}

/// Insertion order is irrelevant: binding two different names into a
/// sorted environment yields the same environment either way round, so
/// descriptors built from the same bindings in different orders are equal
/// and fingerprint identically.
pub proof fn lemma_env_insert_comm(
    env: Seq<(Seq<char>, Seq<char>)>,
    k1: Seq<char>,
    v1: Seq<char>,
    k2: Seq<char>,
    v2: Seq<char>,
)
    requires
        env_sorted(env),
        !name_eq(k1, k2),
    ensures
        spec_env_insert(spec_env_insert(env, k1, v1), k2, v2) == spec_env_insert(
            spec_env_insert(env, k2, v2),
            k1,
            v1,
        ),
{
    lemma_name_total(k1, k2);
    if name_lt(k1, k2) {
        lemma_env_insert_comm_lt(env, k1, v1, k2, v2);
    } else {
        lemma_env_insert_comm_lt(env, k2, v2, k1, v1);
    }
}

/// Clones a vector of strings, element for element.
#[verifier::loop_isolation(false)]
fn clone_string_vec(v: &Vec<String>) -> (r: Vec<String>)
    ensures
        r@ == v@,
{
    let mut r: Vec<String> = Vec::new();
    for i in 0..v.len()
        invariant
            r@ =~= v@.take(i as int),
    {
        r.push(v[i].clone());
    }
    proof {
        assert(v@.take(v.len() as int) =~= v@);
    }
    r
}

/// Clones an optional string.
pub(crate) fn clone_opt_string(v: &Option<String>) -> (r: Option<String>)
    ensures
        r == v,
{
    match v {
        Some(s) => Some(s.clone()),
        None => None,
    }
}

/// Clones a vector of environment bindings, element for element.
#[verifier::loop_isolation(false)]
fn clone_env_vec(v: &Vec<(String, String)>) -> (r: Vec<(String, String)>)
    ensures
        r@ == v@,
{
    let mut r: Vec<(String, String)> = Vec::new();
    for i in 0..v.len()
        invariant
            r@ =~= v@.take(i as int),
    {
        let p = (v[i].0.clone(), v[i].1.clone());
        proof {
            assert(p == v@[i as int]);
        }
        r.push(p);
    }
    proof {
        assert(v@.take(v.len() as int) =~= v@);
    }
    r
}

/// Three-way comparison of the code points of `a` and `b` from char
/// position `i`: negative, zero or positive as the suffix of `a` sorts
/// before, equals or sorts after the suffix of `b`.
fn lex_cmp_from(a: &str, b: &str, i: usize) -> (r: i32)
    requires
        i <= a@.len(),
        i <= b@.len(),
    ensures
        (r < 0) == lex_lt_from(cps(a@), cps(b@), i as int),
        (r > 0) == lex_lt_from(cps(b@), cps(a@), i as int),
        (r == 0) == (cps(a@).skip(i as int) == cps(b@).skip(i as int)),
    decreases a@.len() - i,
{
    let alen = a.unicode_len();
    let blen = b.unicode_len();
    proof {
        assert(cps(a@).len() == a@.len() && cps(b@).len() == b@.len());
    }
    if i >= blen {
        if i >= alen {
            proof {
                assert(cps(a@).skip(i as int) =~= cps(b@).skip(i as int));
            }
            0
        } else {
            proof {
                assert(cps(a@).skip(i as int).len() != cps(b@).skip(i as int).len());
            }
            1
        }
    } else if i >= alen {
        proof {
            assert(cps(a@).skip(i as int).len() != cps(b@).skip(i as int).len());
        }
        -1
    } else {
        let ca = a.get_char(i);
        let cb = b.get_char(i);
        proof {
            assert(cps(a@)[i as int] == ca as u32);
            assert(cps(b@)[i as int] == cb as u32);
        }
        if (ca as u32) != (cb as u32) {
            proof {
                assert(cps(a@).skip(i as int)[0] == ca as u32 && cps(b@).skip(i as int)[0] == cb
                    as u32);
            }
            if (ca as u32) < (cb as u32) {
                -1
            } else {
                1
            }
        } else {
            let r = lex_cmp_from(a, b, i + 1);
            proof {
                if cps(a@).skip(i as int + 1) == cps(b@).skip(i as int + 1) {
                    lemma_skip_step(cps(a@), cps(b@), i as int);
                } else {
                    assert(cps(a@).skip(i as int).skip(1) =~= cps(a@).skip(i as int + 1));
                    assert(cps(b@).skip(i as int).skip(1) =~= cps(b@).skip(i as int + 1));
                }
            }
            r
        }
    }
}

/// Three-way comparison of two strings by their code points.
fn str_lex_cmp(a: &String, b: &String) -> (r: i32)
    ensures
        (r < 0) == name_lt(a@, b@),
        (r > 0) == name_lt(b@, a@),
        (r == 0) == name_eq(a@, b@),
{
    let r = lex_cmp_from(a.as_str(), b.as_str(), 0);
    proof {
        lemma_skip_zero(cps(a@));
        lemma_skip_zero(cps(b@));
    }
    r
}

/// Inserts the binding `k = v` into a sorted environment vector, replacing
/// an existing binding of the same name.
#[verifier::loop_isolation(false)]
fn env_insert(env: &mut Vec<(String, String)>, k: String, v: String)
    ensures
        env_view(final(env)@) == spec_env_insert(env_view(old(env)@), k@, v@),
{
    let ghost e0 = env_view(old(env)@);
    let mut i: usize = 0;
    loop
        invariant
            i <= env.len(),
            env@ == old(env)@,
            forall|j: int| 0 <= j < i ==> name_lt(#[trigger] e0[j].0, k@),
        decreases env.len() - i,
    {
        if i >= env.len() {
            break;
        }
        proof {
            assert(e0[i as int] == (env@[i as int].0@, env@[i as int].1@));
        }
        let c = str_lex_cmp(&k, &env[i].0);
        if c == 0 {
            let ghost ii = i as int;
            env.set(i, (k, v));
            proof {
                lemma_env_insert_unfold(e0, k@, v@, ii);
                let rhs = e0.take(ii) + spec_env_insert(e0.skip(ii), k@, v@);
                assert(e0.skip(ii)[0] == e0[ii]);
                assert(spec_env_insert(e0.skip(ii), k@, v@) == seq![(k@, v@)] + e0.skip(ii).skip(
                    1,
                ));
                assert forall|m: int| 0 <= m < env_view(env@).len() implies #[trigger] env_view(
                    env@,
                )[m] == rhs[m] by {
                    if m < ii {
                        assert(env_view(env@)[m] == e0[m]);
                        assert(rhs[m] == e0.take(ii)[m]);
                    } else if m == ii {
                        assert(env_view(env@)[m] == (k@, v@));
                    } else {
                        assert(env_view(env@)[m] == e0[m]);
                        assert(rhs[m] == e0.skip(ii).skip(1)[m - ii - 1]);
                        assert(e0.skip(ii).skip(1)[m - ii - 1] == e0.skip(ii)[m - ii]);
                    }
                }
                assert(env_view(env@) =~= spec_env_insert(e0, k@, v@));
            }
            return ;
        } else if c < 0 {
            let ghost ii = i as int;
            env.insert(i, (k, v));
            proof {
                lemma_env_insert_unfold(e0, k@, v@, ii);
                let rhs = e0.take(ii) + spec_env_insert(e0.skip(ii), k@, v@);
                assert(e0.skip(ii)[0] == e0[ii]);
                assert(spec_env_insert(e0.skip(ii), k@, v@) == seq![(k@, v@)] + e0.skip(ii));
                assert forall|m: int| 0 <= m < env_view(env@).len() implies #[trigger] env_view(
                    env@,
                )[m] == rhs[m] by {
                    if m < ii {
                        assert(env@[m] == old(env)@[m]);
                        assert(rhs[m] == e0.take(ii)[m]);
                    } else if m == ii {
                        assert(env_view(env@)[m] == (k@, v@));
                    } else {
                        assert(env@[m] == old(env)@[m - 1]);
                        assert(rhs[m] == e0.skip(ii)[m - ii - 1]);
                    }
                }
                assert(env_view(env@) =~= spec_env_insert(e0, k@, v@));
            }
            return ;
        }
        i = i + 1;
    }
    let ghost n = env.len() as int;
    env.push((k, v));
    proof {
        lemma_env_insert_unfold(e0, k@, v@, n);
        assert(e0.skip(n).len() == 0);
        assert(spec_env_insert(e0.skip(n), k@, v@) == seq![(k@, v@)]);
        assert(e0.take(n) =~= e0);
        assert forall|m: int| 0 <= m < env_view(env@).len() implies #[trigger] env_view(env@)[m]
            == (e0 + seq![(k@, v@)])[m] by {
            if m < n {
                assert(env@[m] == old(env)@[m]);
            } else {
                assert(env_view(env@)[m] == (k@, v@));
            }
        }
        assert(env_view(env@) =~= spec_env_insert(e0, k@, v@));
    }
}

impl CommandDesc {
    /// Builds a descriptor from an ordered argument sequence; the first
    /// element is the executable.
    pub fn new(command: Vec<String>) -> (r: CommandDesc)
        requires
            command.len() >= 1,
        ensures
            r@.args == command@.map_values(|s: String| s@),
            r@.cwd is None,
            r@.env == Seq::<(Seq<char>, Seq<char>)>::empty(),
            desc_wf(r@),
    {
        let r = CommandDesc { args: command, cwd: None, env: Vec::new() };
        proof {
            assert(r@.env =~= Seq::<(Seq<char>, Seq<char>)>::empty());
        }
        r
    }

    /// Returns a copy of this descriptor with the working directory set.
    pub fn with_working_dir(&self, cwd: String) -> (r: CommandDesc)
        ensures
            r@.args == self@.args,
            r@.cwd == Some(cwd@),
            r@.env == self@.env,
            desc_wf(self@) ==> desc_wf(r@),
    {
        CommandDesc {
            args: clone_string_vec(&self.args),
            cwd: Some(cwd),
            env: clone_env_vec(&self.env),
        }
    }

    /// Returns a copy of this descriptor with one environment variable
    /// bound to a literal value.
    pub fn with_env_value(&self, key: String, value: String) -> (r: CommandDesc)
        ensures
            r@.args == self@.args,
            r@.cwd == self@.cwd,
            r@.env == spec_env_insert(self@.env, key@, value@),
            desc_wf(self@) ==> desc_wf(r@),
    {
        proof {
            if desc_wf(self@) {
                lemma_env_insert_props(self@.env, key@, value@);
            }
        }
        let mut env = clone_env_vec(&self.env);
        env_insert(&mut env, key, value);
        CommandDesc {
            args: clone_string_vec(&self.args),
            cwd: clone_opt_string(&self.cwd),
            env,
        }
    }

    /// Returns a copy of this descriptor with each supplied binding
    /// inserted in turn, first to last.
    #[verifier::loop_isolation(false)]
pub fn with_envs(&self, envs: Vec<(String, String)>) -> (r: CommandDesc)
        ensures
            r@.args == self@.args,
            r@.cwd == self@.cwd,
            r@.env == spec_env_insert_all(self@.env, env_view(envs@)),
            desc_wf(self@) ==> desc_wf(r@),
    {
        proof {
            if desc_wf(self@) {
                lemma_env_insert_all_sorted(self@.env, env_view(envs@));
            }
        }
        let mut env = clone_env_vec(&self.env);
        let ghost e0 = env_view(self.env@);
        let ghost pv = env_view(envs@);
        for i in 0..envs.len()
            invariant
                env_view(env@) == spec_env_insert_all(e0, pv.take(i as int)),
        {
            proof {
                assert(pv.take(i as int + 1).drop_last() =~= pv.take(i as int));
                assert(pv.take(i as int + 1).last() == pv[i as int]);
                assert(pv[i as int] == (envs@[i as int].0@, envs@[i as int].1@));
            }
            env_insert(&mut env, envs[i].0.clone(), envs[i].1.clone());
        }
        proof {
            assert(pv.take(envs@.len() as int) =~= pv);
        }
        CommandDesc {
            args: clone_string_vec(&self.args),
            cwd: clone_opt_string(&self.cwd),
            env,
        }
    }

    /// Structural equality of two descriptors over all three fields.
    #[verifier::loop_isolation(false)]
pub fn eq_desc(&self, other: &CommandDesc) -> (r: bool)
        ensures
            r == (self@ == other@),
    {
        if self.args.len() != other.args.len() {
            proof {
                assert(self@.args.len() != other@.args.len());
            }
            return false;
        }
        for i in 0..self.args.len()
            invariant
                self.args.len() == other.args.len(),
                forall|j: int| 0 <= j < i ==> self@.args[j] == other@.args[j],
        {
            if !(self.args[i] == other.args[i]) {
                proof {
                    assert(self@.args[i as int] != other@.args[i as int]);
                }
                return false;
            }
        }
        proof {
            assert(self@.args =~= other@.args);
        }
        match (&self.cwd, &other.cwd) {
            (Some(a), Some(b)) => {
                if !(*a == *b) {
                    proof {
                        assert(self@.cwd != other@.cwd);
                    }
                    return false;
                }
            },
            (None, None) => {},
            _ => {
                proof {
                    assert(self@.cwd != other@.cwd);
                }
                return false;
            },
        }
        if self.env.len() != other.env.len() {
            proof {
                assert(self@.env.len() != other@.env.len());
            }
            return false;
        }
        for i in 0..self.env.len()
            invariant
                self.env.len() == other.env.len(),
                forall|j: int| 0 <= j < i ==> self@.env[j] == other@.env[j],
        {
            proof {
                assert(self@.env[i as int] == (self.env@[i as int].0@, self.env@[i as int].1@));
                assert(other@.env[i as int] == (other.env@[i as int].0@, other.env@[i as int].1@));
            }
            if !(self.env[i].0 == other.env[i].0) || !(self.env[i].1 == other.env[i].1) {
                proof {
                    assert(self@.env[i as int] != other@.env[i as int]);
                }
                return false;
            }
        }
        proof {
            assert(self@.env =~= other@.env);
            assert(self@ =~= other@);
        }
        true
    }

    /// A copy of this descriptor, field for field.
    pub fn clone_desc(&self) -> (r: CommandDesc)
        ensures
            r@ == self@,
    {
        let r = CommandDesc {
            args: clone_string_vec(&self.args),
            cwd: clone_opt_string(&self.cwd),
            env: clone_env_vec(&self.env),
        };
        proof {
            assert(r@ =~= self@);
        }
        r
    }

    /// Assembles a descriptor from already-prepared parts; the bindings are
    /// taken as given, in their given order.
    pub(crate) fn from_parts(
        args: Vec<String>,
        cwd: Option<String>,
        env: Vec<(String, String)>,
    ) -> (r: CommandDesc)
        ensures
            r@.args == args@.map_values(|s: String| s@),
            r@.cwd == (match cwd {
                Some(s) => Some(s@),
                None => None::<Seq<char>>,
            }),
            r@.env == env_view(env@),
    {
        CommandDesc { args, cwd, env }
    }

    /// The argument list.
    pub fn args(&self) -> (r: &Vec<String>)
        ensures
            r@.map_values(|s: String| s@) == self@.args,
    {
        &self.args
    }

    /// The explicit working directory, if one was set.
    pub fn cwd(&self) -> (r: &Option<String>)
        ensures
            match r {
                Some(s) => self@.cwd == Some(s@),
                None => self@.cwd is None,
            },
    {
        &self.cwd
    }

    /// The environment additions, sorted by variable name.
    pub fn env(&self) -> (r: &Vec<(String, String)>)
        ensures
            env_view(r@) == self@.env,
    {
        &self.env
    }
}

} // verus!
