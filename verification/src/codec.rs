use vstd::prelude::*;
use vstd::bytes::{
    lemma_auto_spec_u32_to_from_le_bytes, lemma_auto_spec_u64_to_from_le_bytes,
    spec_u32_from_le_bytes, spec_u32_to_le_bytes, spec_u64_from_le_bytes, spec_u64_to_le_bytes,
};
use vstd::bytes::{u32_to_le_bytes, u64_to_le_bytes, u32_from_le_bytes, u64_from_le_bytes};
use vstd::slice::{slice_subrange, slice_to_vec};
use vstd::string::StrSliceExecFns;
use crate::desc::{cps, env_view, CommandDesc, CommandDescView};
use crate::record::{Invocation, InvocationView};

verus! {

/// Code-point image of a descriptor: every string replaced by the sequence
/// of its Unicode code points. The wire format stores code points, so the
/// codec's contracts are stated over this image.
#[verifier::ext_equal]
pub struct DescCp {
    pub args: Seq<Seq<u32>>,
    pub cwd: Option<Seq<u32>>,
    pub env: Seq<(Seq<u32>, Seq<u32>)>,
}

/// Code-point image of an invocation record.
#[verifier::ext_equal]
pub struct RecordCp {
    pub command: DescCp,
    pub stdout: Seq<u8>,
    pub stderr: Seq<u8>,
    pub status: i32,
    pub runtime: u64,
}

pub open spec fn desc_cp(v: CommandDescView) -> DescCp {
    DescCp {
        args: v.args.map_values(|s: Seq<char>| cps(s)),
        cwd: match v.cwd {
            Some(s) => Some(cps(s)),
            None => None,
        },
        env: v.env.map_values(|p: (Seq<char>, Seq<char>)| (cps(p.0), cps(p.1))),
    }
}

pub open spec fn record_cp(v: InvocationView) -> RecordCp {
    RecordCp {
        command: desc_cp(v.command),
        stdout: v.stdout,
        stderr: v.stderr,
        status: v.status,
        runtime: v.runtime,
    }
}

/// A Unicode scalar value: what a `char` may hold.
pub open spec fn valid_scalar(x: u32) -> bool {
    x < 0xD800 || (0xE000 <= x && x <= 0x10FFFF)
}

pub open spec fn valid_cps(s: Seq<u32>) -> bool {
    s.len() < 0x10000000000000000 && (forall|i: int|
        0 <= i < s.len() ==> valid_scalar(#[trigger] s[i]))
}

pub open spec fn strs_valid(args: Seq<Seq<u32>>) -> bool {
    forall|k: int| 0 <= k < args.len() ==> valid_cps(#[trigger] args[k])
}

pub open spec fn pairs_valid(env: Seq<(Seq<u32>, Seq<u32>)>) -> bool {
    forall|k: int|
        0 <= k < env.len() ==> valid_cps((#[trigger] env[k]).0) && valid_cps(env[k].1)
}

/// The bounds under which a descriptor image is encodable and decodes back
/// to itself: scalar values only, and lengths that fit the wire's 64-bit
/// length fields.
pub open spec fn desc_cp_valid(d: DescCp) -> bool {
    &&& d.args.len() < 0x10000000000000000
    &&& strs_valid(d.args)
    &&& match d.cwd {
        Some(s) => valid_cps(s),
        None => true,
    }
    &&& d.env.len() < 0x10000000000000000
    &&& pairs_valid(d.env)
}

pub open spec fn record_cp_valid(rc: RecordCp) -> bool {
    &&& desc_cp_valid(rc.command)
    &&& rc.command.args.len() >= 1
    &&& rc.stdout.len() < 0x10000000000000000
    &&& rc.stderr.len() < 0x10000000000000000
}

// ----- encoders -----

pub open spec fn enc_u64(x: u64) -> Seq<u8> {
    spec_u64_to_le_bytes(x)
}

pub open spec fn enc_u32(x: u32) -> Seq<u8> {
    spec_u32_to_le_bytes(x)
}

pub open spec fn enc_cp_list(s: Seq<u32>) -> Seq<u8>
    decreases s.len(),
{
    if s.len() == 0 {
        Seq::empty()
    } else {
        enc_u32(s[0]) + enc_cp_list(s.skip(1))
    }
}

/// A string: its length in code points, then each code point.
pub open spec fn enc_str(s: Seq<u32>) -> Seq<u8> {
    enc_u64(s.len() as u64) + enc_cp_list(s)
}

/// A byte buffer: its length, then the bytes themselves.
pub open spec fn enc_bytes(b: Seq<u8>) -> Seq<u8> {
    enc_u64(b.len() as u64) + b
}

/// An optional string: a presence tag, then the string if present.
pub open spec fn enc_opt_str(o: Option<Seq<u32>>) -> Seq<u8> {
    match o {
        None => seq![0u8],
        Some(s) => seq![1u8] + enc_str(s),
    }
}

pub open spec fn enc_str_list(args: Seq<Seq<u32>>) -> Seq<u8>
    decreases args.len(),
{
    if args.len() == 0 {
        Seq::empty()
    } else {
        enc_str(args[0]) + enc_str_list(args.skip(1))
    }
}

pub open spec fn enc_pair_list(env: Seq<(Seq<u32>, Seq<u32>)>) -> Seq<u8>
    decreases env.len(),
{
    if env.len() == 0 {
        Seq::empty()
    } else {
        enc_str(env[0].0) + enc_str(env[0].1) + enc_pair_list(env.skip(1))
    }
}

/// The exit status, shifted into an unsigned 32-bit wire value.
pub open spec fn status_bits(st: i32) -> u32 {
    if st >= 0 {
        st as u32
    } else {
        ((st as int) + 0x100000000) as u32
    }
}

/// The exit status read back from its wire value.
pub open spec fn status_of_bits(x: u32) -> i32 {
    if x >= 0x80000000 {
        ((x as int) - 0x100000000) as i32
    } else {
        x as i32
    }
}

/// A descriptor: argument count, arguments, optional working directory,
/// binding count, bindings.
pub open spec fn enc_desc(d: DescCp) -> Seq<u8> {
    enc_u64(d.args.len() as u64) + enc_str_list(d.args) + enc_opt_str(d.cwd) + enc_u64(
        d.env.len() as u64,
    ) + enc_pair_list(d.env)
}

/// A whole record: descriptor, captured output and error bytes, exit
/// status, and runtime in nanoseconds.
pub open spec fn enc_record(rc: RecordCp) -> Seq<u8> {
    enc_desc(rc.command) + enc_bytes(rc.stdout) + enc_bytes(rc.stderr) + enc_u32(
        status_bits(rc.status),
    ) + enc_u64(rc.runtime)
}

// ----- parsers -----

pub open spec fn sp_u64(s: Seq<u8>, i: int) -> Option<(u64, int)> {
    if 0 <= i && i + 8 <= s.len() {
        Some((spec_u64_from_le_bytes(s.subrange(i, i + 8)), i + 8))
    } else {
        None
    }
}

pub open spec fn sp_u32(s: Seq<u8>, i: int) -> Option<(u32, int)> {
    if 0 <= i && i + 4 <= s.len() {
        Some((spec_u32_from_le_bytes(s.subrange(i, i + 4)), i + 4))
    } else {
        None
    }
}

pub open spec fn sp_byte(s: Seq<u8>, i: int) -> Option<(u8, int)> {
    if 0 <= i && i + 1 <= s.len() {
        Some((s[i], i + 1))
    } else {
        None
    }
}

pub open spec fn sp_cp(s: Seq<u8>, i: int) -> Option<(u32, int)> {
    match sp_u32(s, i) {
        None => None,
        Some((x, j)) => if valid_scalar(x) {
            Some((x, j))
        } else {
            None
        },
    }
}

pub open spec fn sp_cp_list(s: Seq<u8>, i: int, n: nat) -> Option<(Seq<u32>, int)>
    decreases n,
{
    if n == 0 {
        Some((Seq::empty(), i))
    } else {
        match sp_cp(s, i) {
            None => None,
            Some((c, j)) => match sp_cp_list(s, j, (n - 1) as nat) {
                None => None,
                Some((rest, k)) => Some((seq![c] + rest, k)),
            },
        }
    }
}

pub open spec fn sp_str(s: Seq<u8>, i: int) -> Option<(Seq<u32>, int)> {
    match sp_u64(s, i) {
        None => None,
        Some((len, j)) => sp_cp_list(s, j, len as nat),
    }
}

pub open spec fn sp_bytes(s: Seq<u8>, i: int) -> Option<(Seq<u8>, int)> {
    match sp_u64(s, i) {
        None => None,
        Some((len, j)) => if j + len <= s.len() {
            Some((s.subrange(j, j + len), j + len))
        } else {
            None
        },
    }
}

pub open spec fn sp_opt_str(s: Seq<u8>, i: int) -> Option<(Option<Seq<u32>>, int)> {
    match sp_byte(s, i) {
        None => None,
        Some((t, j)) => if t == 0 {
            Some((None, j))
        } else if t == 1 {
            match sp_str(s, j) {
                None => None,
                Some((v, k)) => Some((Some(v), k)),
            }
        } else {
            None
        },
    }
}

pub open spec fn sp_str_list(s: Seq<u8>, i: int, n: nat) -> Option<(Seq<Seq<u32>>, int)>
    decreases n,
{
    if n == 0 {
        Some((Seq::empty(), i))
    } else {
        match sp_str(s, i) {
            None => None,
            Some((v, j)) => match sp_str_list(s, j, (n - 1) as nat) {
                None => None,
                Some((rest, k)) => Some((seq![v] + rest, k)),
            },
        }
    }
}

pub open spec fn sp_pair_list(s: Seq<u8>, i: int, n: nat) -> Option<
    (Seq<(Seq<u32>, Seq<u32>)>, int),
>
    decreases n,
{
    if n == 0 {
        Some((Seq::empty(), i))
    } else {
        match sp_str(s, i) {
            None => None,
            Some((k0, j)) => match sp_str(s, j) {
                None => None,
                Some((v0, j2)) => match sp_pair_list(s, j2, (n - 1) as nat) {
                    None => None,
                    Some((rest, k)) => Some((seq![(k0, v0)] + rest, k)),
                },
            },
        }
    }
}

pub open spec fn sp_desc(s: Seq<u8>, i: int) -> Option<(DescCp, int)> {
    match sp_u64(s, i) {
        None => None,
        Some((count, j)) => if count == 0 {
            None
        } else {
            match sp_str_list(s, j, count as nat) {
                None => None,
                Some((args, j2)) => match sp_opt_str(s, j2) {
                    None => None,
                    Some((cwd, j3)) => match sp_u64(s, j3) {
                        None => None,
                        Some((ecount, j4)) => match sp_pair_list(s, j4, ecount as nat) {
                            None => None,
                            Some((env, j5)) => Some((DescCp { args, cwd, env }, j5)),
                        },
                    },
                },
            }
        },
    }
}

pub open spec fn sp_record(s: Seq<u8>, i: int) -> Option<(RecordCp, int)> {
    match sp_desc(s, i) {
        None => None,
        Some((command, j)) => match sp_bytes(s, j) {
            None => None,
            Some((stdout, j2)) => match sp_bytes(s, j2) {
                None => None,
                Some((stderr, j3)) => match sp_u32(s, j3) {
                    None => None,
                    Some((sb, j4)) => match sp_u64(s, j4) {
                        None => None,
                        Some((runtime, j5)) => Some(
                            (
                                RecordCp {
                                    command,
                                    stdout,
                                    stderr,
                                    status: status_of_bits(sb),
                                    runtime,
                                },
                                j5,
                            ),
                        ),
                    },
                },
            },
        },
    }
}

// ----- round trip: each parser reads back what its encoder wrote -----

/// Splitting a window known to hold a concatenation into its two halves.
pub proof fn lemma_split_subrange(s: Seq<u8>, i: int, e1: Seq<u8>, e2: Seq<u8>)
    requires
        0 <= i,
        i + e1.len() + e2.len() <= s.len(),
        s.subrange(i, i + e1.len() + e2.len()) == e1 + e2,
    ensures
        s.subrange(i, i + e1.len()) == e1,
        s.subrange(i + e1.len(), i + e1.len() + e2.len()) == e2,
{
    let w = s.subrange(i, i + e1.len() + e2.len());
    assert forall|j: int| 0 <= j < e1.len() implies #[trigger] s.subrange(i, i + e1.len())[j]
        == e1[j] by {
        assert(s.subrange(i, i + e1.len())[j] == s[i + j]);
        assert(w[j] == s[i + j]);
        assert(w[j] == (e1 + e2)[j]);
    }
    assert(s.subrange(i, i + e1.len()) =~= e1);
    assert forall|j: int| 0 <= j < e2.len() implies #[trigger] s.subrange(
        i + e1.len(),
        i + e1.len() + e2.len(),
    )[j] == e2[j] by {
        assert(s.subrange(i + e1.len(), i + e1.len() + e2.len())[j] == s[i + e1.len() + j]);
        assert(w[e1.len() + j] == s[i + e1.len() + j]);
        assert(w[e1.len() + j] == (e1 + e2)[e1.len() + j]);
    }
    assert(s.subrange(i + e1.len(), i + e1.len() + e2.len()) =~= e2);
}

pub proof fn lemma_sp_u64(s: Seq<u8>, i: int, x: u64)
    requires
        0 <= i,
        i + 8 <= s.len(),
        s.subrange(i, i + 8) == enc_u64(x),
    ensures
        sp_u64(s, i) == Some((x, i + 8)),
{
    lemma_auto_spec_u64_to_from_le_bytes();
}

pub proof fn lemma_sp_u32(s: Seq<u8>, i: int, x: u32)
    requires
        0 <= i,
        i + 4 <= s.len(),
        s.subrange(i, i + 4) == enc_u32(x),
    ensures
        sp_u32(s, i) == Some((x, i + 4)),
{
    lemma_auto_spec_u32_to_from_le_bytes();
    let e = spec_u32_to_le_bytes(x);
    assert(e.len() == 4);
    assert(spec_u32_from_le_bytes(e) == x);
}

pub proof fn lemma_enc_cp_list_len(v: Seq<u32>)
    ensures
        enc_cp_list(v).len() == 4 * v.len(),
    decreases v.len(),
{
    lemma_auto_spec_u32_to_from_le_bytes();
    if v.len() > 0 {
        lemma_enc_cp_list_len(v.skip(1));
    }
}

pub proof fn lemma_sp_cp_list(s: Seq<u8>, i: int, v: Seq<u32>)
    requires
        valid_cps(v),
        0 <= i,
        i + enc_cp_list(v).len() <= s.len(),
        s.subrange(i, i + enc_cp_list(v).len()) == enc_cp_list(v),
    ensures
        sp_cp_list(s, i, v.len() as nat) == Some((v, i + enc_cp_list(v).len())),
    decreases v.len(),
{
    lemma_auto_spec_u32_to_from_le_bytes();
    if v.len() == 0 {
        assert(v =~= Seq::<u32>::empty());
    } else {
        let e0 = enc_u32(v[0]);
        let erest = enc_cp_list(v.skip(1));
        assert(enc_cp_list(v) == e0 + erest);
        lemma_split_subrange(s, i, e0, erest);
        lemma_sp_u32(s, i, v[0]);
        assert(valid_scalar(v[0]));
        assert(valid_cps(v.skip(1))) by {
            assert forall|k: int| 0 <= k < v.skip(1).len() implies valid_scalar(
                #[trigger] v.skip(1)[k],
            ) by {
                assert(v.skip(1)[k] == v[k + 1]);
            }
        }
        lemma_sp_cp_list(s, i + 4, v.skip(1));
        assert(seq![v[0]] + v.skip(1) =~= v);
    }
}

pub proof fn lemma_sp_str(s: Seq<u8>, i: int, v: Seq<u32>)
    requires
        valid_cps(v),
        0 <= i,
        i + enc_str(v).len() <= s.len(),
        s.subrange(i, i + enc_str(v).len()) == enc_str(v),
    ensures
        sp_str(s, i) == Some((v, i + enc_str(v).len())),
{
    lemma_auto_spec_u64_to_from_le_bytes();
    let e0 = enc_u64(v.len() as u64);
    let erest = enc_cp_list(v);
    assert(enc_str(v) == e0 + erest);
    lemma_split_subrange(s, i, e0, erest);
    lemma_sp_u64(s, i, v.len() as u64);
    assert((v.len() as u64) as nat == v.len());
    lemma_sp_cp_list(s, i + 8, v);
}

pub proof fn lemma_sp_bytes(s: Seq<u8>, i: int, b: Seq<u8>)
    requires
        b.len() < 0x10000000000000000,
        0 <= i,
        i + enc_bytes(b).len() <= s.len(),
        s.subrange(i, i + enc_bytes(b).len()) == enc_bytes(b),
    ensures
        sp_bytes(s, i) == Some((b, i + enc_bytes(b).len())),
{
    lemma_auto_spec_u64_to_from_le_bytes();
    let e0 = enc_u64(b.len() as u64);
    assert(enc_bytes(b) == e0 + b);
    lemma_split_subrange(s, i, e0, b);
    lemma_sp_u64(s, i, b.len() as u64);
}

pub proof fn lemma_sp_opt_str(s: Seq<u8>, i: int, o: Option<Seq<u32>>)
    requires
        match o {
            Some(v) => valid_cps(v),
            None => true,
        },
        0 <= i,
        i + enc_opt_str(o).len() <= s.len(),
        s.subrange(i, i + enc_opt_str(o).len()) == enc_opt_str(o),
    ensures
        sp_opt_str(s, i) == Some((o, i + enc_opt_str(o).len())),
{
    match o {
        None => {
            assert(s.subrange(i, i + 1)[0] == s[i]);
            assert(s[i] == 0u8);
        },
        Some(v) => {
            let e0: Seq<u8> = seq![1u8];
            let erest = enc_str(v);
            assert(enc_opt_str(o) == e0 + erest);
            lemma_split_subrange(s, i, e0, erest);
            assert(s.subrange(i, i + 1)[0] == s[i]);
            assert(s[i] == 1u8);
            lemma_sp_str(s, i + 1, v);
        },
    }
}

pub proof fn lemma_sp_str_list(s: Seq<u8>, i: int, args: Seq<Seq<u32>>)
    requires
        strs_valid(args),
        0 <= i,
        i + enc_str_list(args).len() <= s.len(),
        s.subrange(i, i + enc_str_list(args).len()) == enc_str_list(args),
    ensures
        sp_str_list(s, i, args.len() as nat) == Some((args, i + enc_str_list(args).len())),
    decreases args.len(),
{
    if args.len() == 0 {
        assert(args =~= Seq::<Seq<u32>>::empty());
    } else {
        let e0 = enc_str(args[0]);
        let erest = enc_str_list(args.skip(1));
        assert(enc_str_list(args) == e0 + erest);
        lemma_split_subrange(s, i, e0, erest);
        lemma_sp_str(s, i, args[0]);
        assert(strs_valid(args.skip(1))) by {
            assert forall|k: int| 0 <= k < args.skip(1).len() implies valid_cps(
                #[trigger] args.skip(1)[k],
            ) by {
                assert(args.skip(1)[k] == args[k + 1]);
            }
        }
        lemma_sp_str_list(s, i + e0.len(), args.skip(1));
        assert(seq![args[0]] + args.skip(1) =~= args);
    }
}

pub proof fn lemma_sp_pair_list(s: Seq<u8>, i: int, env: Seq<(Seq<u32>, Seq<u32>)>)
    requires
        pairs_valid(env),
        0 <= i,
        i + enc_pair_list(env).len() <= s.len(),
        s.subrange(i, i + enc_pair_list(env).len()) == enc_pair_list(env),
    ensures
        sp_pair_list(s, i, env.len() as nat) == Some((env, i + enc_pair_list(env).len())),
    decreases env.len(),
{
    if env.len() == 0 {
        assert(env =~= Seq::<(Seq<u32>, Seq<u32>)>::empty());
    } else {
        let e0 = enc_str(env[0].0);
        let e1 = enc_str(env[0].1);
        let erest = enc_pair_list(env.skip(1));
        assert(enc_pair_list(env) == e0 + e1 + erest);
        assert(e0 + e1 + erest =~= e0 + (e1 + erest));
        lemma_split_subrange(s, i, e0, e1 + erest);
        lemma_split_subrange(s, i + e0.len(), e1, erest);
        lemma_sp_str(s, i, env[0].0);
        lemma_sp_str(s, i + e0.len(), env[0].1);
        assert(pairs_valid(env.skip(1))) by {
            assert forall|k: int| 0 <= k < env.skip(1).len() implies valid_cps(
                (#[trigger] env.skip(1)[k]).0,
            ) && valid_cps(env.skip(1)[k].1) by {
                assert(env.skip(1)[k] == env[k + 1]);
            }
        }
        lemma_sp_pair_list(s, i + e0.len() + e1.len(), env.skip(1));
        assert(seq![env[0]] + env.skip(1) =~= env);
    }
}

pub proof fn lemma_sp_desc(s: Seq<u8>, i: int, d: DescCp)
    requires
        desc_cp_valid(d),
        d.args.len() >= 1,
        0 <= i,
        i + enc_desc(d).len() <= s.len(),
        s.subrange(i, i + enc_desc(d).len()) == enc_desc(d),
    ensures
        sp_desc(s, i) == Some((d, i + enc_desc(d).len())),
{
    lemma_auto_spec_u64_to_from_le_bytes();
    let e1 = enc_u64(d.args.len() as u64);
    let e2 = enc_str_list(d.args);
    let e3 = enc_opt_str(d.cwd);
    let e4 = enc_u64(d.env.len() as u64);
    let e5 = enc_pair_list(d.env);
    assert(enc_desc(d) == e1 + e2 + e3 + e4 + e5);
    assert(e1 + e2 + e3 + e4 + e5 =~= e1 + (e2 + (e3 + (e4 + e5))));
    lemma_split_subrange(s, i, e1, e2 + (e3 + (e4 + e5)));
    let i2 = i + e1.len();
    assert(e2 + (e3 + (e4 + e5)) =~= e2 + (e3 + (e4 + e5)));
    lemma_split_subrange(s, i2, e2, e3 + (e4 + e5));
    let i3 = i2 + e2.len();
    lemma_split_subrange(s, i3, e3, e4 + e5);
    let i4 = i3 + e3.len();
    lemma_split_subrange(s, i4, e4, e5);
    let i5 = i4 + e4.len();
    lemma_sp_u64(s, i, d.args.len() as u64);
    assert((d.args.len() as u64) as nat == d.args.len());
    lemma_sp_str_list(s, i2, d.args);
    lemma_sp_opt_str(s, i3, d.cwd);
    lemma_sp_u64(s, i4, d.env.len() as u64);
    assert((d.env.len() as u64) as nat == d.env.len());
    lemma_sp_pair_list(s, i5, d.env);
}

pub proof fn lemma_status_round_trip(st: i32)
    ensures
        status_of_bits(status_bits(st)) == st,
{
}

/// Round trip of the wire format: parsing an encoded record at any position
/// inside a larger sequence yields the record back and stops right after it.
pub proof fn lemma_sp_record(s: Seq<u8>, i: int, rc: RecordCp)
    requires
        record_cp_valid(rc),
        0 <= i,
        i + enc_record(rc).len() <= s.len(),
        s.subrange(i, i + enc_record(rc).len()) == enc_record(rc),
    ensures
        sp_record(s, i) == Some((rc, i + enc_record(rc).len())),
{
    lemma_auto_spec_u64_to_from_le_bytes();
    lemma_auto_spec_u32_to_from_le_bytes();
    let e1 = enc_desc(rc.command);
    let e2 = enc_bytes(rc.stdout);
    let e3 = enc_bytes(rc.stderr);
    let e4 = enc_u32(status_bits(rc.status));
    let e5 = enc_u64(rc.runtime);
    assert(enc_record(rc) == e1 + e2 + e3 + e4 + e5);
    assert(e1 + e2 + e3 + e4 + e5 =~= e1 + (e2 + (e3 + (e4 + e5))));
    lemma_split_subrange(s, i, e1, e2 + (e3 + (e4 + e5)));
    let i2 = i + e1.len();
    lemma_split_subrange(s, i2, e2, e3 + (e4 + e5));
    let i3 = i2 + e2.len();
    lemma_split_subrange(s, i3, e3, e4 + e5);
    let i4 = i3 + e3.len();
    lemma_split_subrange(s, i4, e4, e5);
    let i5 = i4 + e4.len();
    lemma_sp_desc(s, i, rc.command);
    lemma_sp_bytes(s, i2, rc.stdout);
    lemma_sp_bytes(s, i3, rc.stderr);
    lemma_sp_u32(s, i4, status_bits(rc.status));
    lemma_sp_u64(s, i5, rc.runtime);
    lemma_status_round_trip(rc.status);
}

/// Deserialization inverts serialization: decoding the encoding of any
/// well-bounded record yields the record, consuming the whole encoding.
pub proof fn lemma_round_trip(rc: RecordCp)
    requires
        record_cp_valid(rc),
    ensures
        sp_record(enc_record(rc), 0) == Some((rc, enc_record(rc).len() as int)),
{
    let s = enc_record(rc);
    assert(s.subrange(0, s.len() as int) =~= s);
    lemma_sp_record(s, 0, rc);
}

// ----- encoder executables -----

pub proof fn lemma_enc_cp_list_snoc(v: Seq<u32>, x: u32)
    ensures
        enc_cp_list(v.push(x)) == enc_cp_list(v) + enc_u32(x),
    decreases v.len(),
{
    if v.len() == 0 {
        assert(v.push(x)[0] == x);
        assert(v.push(x).skip(1) =~= Seq::<u32>::empty());
        assert(enc_cp_list(v.push(x).skip(1)) == Seq::<u8>::empty());
        assert(enc_cp_list(v.push(x)) == enc_u32(x) + Seq::<u8>::empty());
        assert(enc_cp_list(v) == Seq::<u8>::empty());
        assert(enc_cp_list(v.push(x)) =~= enc_cp_list(v) + enc_u32(x));
    } else {
        assert(v.push(x)[0] == v[0]);
        assert(v.push(x).skip(1) =~= v.skip(1).push(x));
        lemma_enc_cp_list_snoc(v.skip(1), x);
        assert(enc_u32(v[0]) + (enc_cp_list(v.skip(1)) + enc_u32(x)) =~= (enc_u32(v[0])
            + enc_cp_list(v.skip(1))) + enc_u32(x));
    }
}

pub proof fn lemma_enc_str_list_snoc(v: Seq<Seq<u32>>, x: Seq<u32>)
    ensures
        enc_str_list(v.push(x)) == enc_str_list(v) + enc_str(x),
    decreases v.len(),
{
    if v.len() == 0 {
        assert(v.push(x)[0] == x);
        assert(v.push(x).skip(1) =~= Seq::<Seq<u32>>::empty());
        assert(enc_str_list(v.push(x).skip(1)) == Seq::<u8>::empty());
        assert(enc_str_list(v.push(x)) == enc_str(x) + Seq::<u8>::empty());
        assert(enc_str_list(v) == Seq::<u8>::empty());
        assert(enc_str_list(v.push(x)) =~= enc_str_list(v) + enc_str(x));
    } else {
        assert(v.push(x)[0] == v[0]);
        assert(v.push(x).skip(1) =~= v.skip(1).push(x));
        lemma_enc_str_list_snoc(v.skip(1), x);
        assert(enc_str(v[0]) + (enc_str_list(v.skip(1)) + enc_str(x)) =~= (enc_str(v[0])
            + enc_str_list(v.skip(1))) + enc_str(x));
    }
}

pub proof fn lemma_enc_pair_list_snoc(v: Seq<(Seq<u32>, Seq<u32>)>, x: (Seq<u32>, Seq<u32>))
    ensures
        enc_pair_list(v.push(x)) == enc_pair_list(v) + enc_str(x.0) + enc_str(x.1),
    decreases v.len(),
{
    if v.len() == 0 {
        assert(v.push(x)[0] == x);
        assert(v.push(x).skip(1) =~= Seq::<(Seq<u32>, Seq<u32>)>::empty());
        assert(enc_pair_list(v.push(x).skip(1)) == Seq::<u8>::empty());
        assert(enc_pair_list(v.push(x)) == enc_str(x.0) + enc_str(x.1) + Seq::<u8>::empty());
        assert(enc_pair_list(v) == Seq::<u8>::empty());
        assert(enc_pair_list(v.push(x)) =~= enc_pair_list(v) + enc_str(x.0) + enc_str(x.1));
    } else {
        assert(v.push(x)[0] == v[0]);
        assert(v.push(x).skip(1) =~= v.skip(1).push(x));
        lemma_enc_pair_list_snoc(v.skip(1), x);
        assert(enc_str(v[0].0) + enc_str(v[0].1) + (enc_pair_list(v.skip(1)) + enc_str(x.0)
            + enc_str(x.1)) =~= (enc_str(v[0].0) + enc_str(v[0].1) + enc_pair_list(v.skip(1)))
            + enc_str(x.0) + enc_str(x.1));
    }
}

fn push_u64(out: &mut Vec<u8>, x: u64)
    ensures
        final(out)@ == old(out)@ + enc_u64(x),
{
    let mut b = u64_to_le_bytes(x);
    out.append(&mut b);
}

fn push_u32(out: &mut Vec<u8>, x: u32)
    ensures
        final(out)@ == old(out)@ + enc_u32(x),
{
    let mut b = u32_to_le_bytes(x);
    out.append(&mut b);
}

/// Appends the string's length and code points; a side product of walking
/// the characters is that every code point is a Unicode scalar value.
#[verifier::loop_isolation(false)]
fn ser_string(out: &mut Vec<u8>, s: &String)
    ensures
        final(out)@ == old(out)@ + enc_str(cps(s@)),
        valid_cps(cps(s@)),
{
    let n = s.as_str().unicode_len();
    proof {
        assert(cps(s@).len() == s@.len());
    }
    push_u64(out, n as u64);
    let ghost c0 = cps(s@);
    let ghost base = out@;
    for i in 0..n
        invariant
            out@ == base + enc_cp_list(c0.take(i as int)),
            forall|j: int| 0 <= j < i ==> valid_scalar(#[trigger] c0[j]),
    {
        let ch = s.as_str().get_char(i);
        proof {
            assert(c0[i as int] == ch as u32);
            assert(valid_scalar(ch as u32));
            assert(c0.take(i as int + 1) =~= c0.take(i as int).push(c0[i as int]));
            lemma_enc_cp_list_snoc(c0.take(i as int), c0[i as int]);
        }
        push_u32(out, ch as u32);
    }
    proof {
        assert(c0.take(n as int) =~= c0);
        assert(old(out)@ + enc_u64(n as u64) + enc_cp_list(c0) =~= old(out)@ + (enc_u64(n as u64)
            + enc_cp_list(c0)));
    }
}

/// Appends the buffer's length and the bytes themselves.
#[verifier::loop_isolation(false)]
fn ser_bytes(out: &mut Vec<u8>, b: &Vec<u8>)
    ensures
        final(out)@ == old(out)@ + enc_bytes(b@),
        b@.len() < 0x10000000000000000,
{
    push_u64(out, b.len() as u64);
    let ghost base = out@;
    for i in 0..b.len()
        invariant
            out@ == base + b@.take(i as int),
    {
        proof {
            assert(b@.take(i as int + 1) =~= b@.take(i as int).push(b@[i as int]));
        }
        out.push(b[i]);
    }
    proof {
        assert(b@.take(b@.len() as int) =~= b@);
        assert(old(out)@ + enc_u64(b@.len() as u64) + b@ =~= old(out)@ + (enc_u64(b@.len() as u64)
            + b@));
    }
}

/// Appends the descriptor's wire form; a side product is that its
/// code-point image lies within the encodable bounds.
#[verifier::loop_isolation(false)]
pub(crate) fn ser_desc(out: &mut Vec<u8>, d: &CommandDesc)
    ensures
        final(out)@ == old(out)@ + enc_desc(desc_cp(d@)),
        desc_cp_valid(desc_cp(d@)),
        desc_cp(d@).args.len() == d@.args.len(),
{
    let ghost dc = desc_cp(d@);
    let args = d.args();
    proof {
        assert(args@.map_values(|s: String| s@).len() == dc.args.len());
    }
    push_u64(out, args.len() as u64);
    let ghost base1 = out@;
    for i in 0..args.len()
        invariant
            out@ == base1 + enc_str_list(dc.args.take(i as int)),
            forall|j: int| 0 <= j < i ==> valid_cps(#[trigger] dc.args[j]),
    {
        proof {
            assert(dc.args[i as int] == cps(args@.map_values(|s: String| s@)[i as int]));
            assert(dc.args[i as int] == cps(args@[i as int]@));
            assert(dc.args.take(i as int + 1) =~= dc.args.take(i as int).push(dc.args[i as int]));
            lemma_enc_str_list_snoc(dc.args.take(i as int), dc.args[i as int]);
        }
        ser_string(out, &args[i]);
    }
    proof {
        assert(dc.args.take(dc.args.len() as int) =~= dc.args);
    }
    let ghost base2 = out@;
    match d.cwd() {
        None => {
            out.push(0u8);
            proof {
                assert(dc.cwd is None);
                assert(out@ =~= base2 + enc_opt_str(dc.cwd));
            }
        },
        Some(s) => {
            out.push(1u8);
            ser_string(out, s);
            proof {
                assert(dc.cwd == Some(cps(s@)));
                assert(base2.push(1u8) =~= base2 + seq![1u8]);
                assert(base2 + seq![1u8] + enc_str(cps(s@)) =~= base2 + (seq![1u8] + enc_str(
                    cps(s@),
                )));
            }
        },
    }
    let env = d.env();
    proof {
        assert(env_view(env@).len() == dc.env.len());
    }
    push_u64(out, env.len() as u64);
    let ghost base3 = out@;
    for i in 0..env.len()
        invariant
            out@ == base3 + enc_pair_list(dc.env.take(i as int)),
            forall|j: int|
                0 <= j < i ==> valid_cps((#[trigger] dc.env[j]).0) && valid_cps(dc.env[j].1),
    {
        proof {
            assert(env_view(env@)[i as int] == (env@[i as int].0@, env@[i as int].1@));
            assert(dc.env[i as int] == (cps(env@[i as int].0@), cps(env@[i as int].1@)));
            assert(dc.env.take(i as int + 1) =~= dc.env.take(i as int).push(dc.env[i as int]));
            lemma_enc_pair_list_snoc(dc.env.take(i as int), dc.env[i as int]);
        }
        let ghost mid = out@;
        ser_string(out, &env[i].0);
        ser_string(out, &env[i].1);
        proof {
            assert(mid + enc_str(dc.env[i as int].0) + enc_str(dc.env[i as int].1) =~= mid
                + (enc_str(dc.env[i as int].0) + enc_str(dc.env[i as int].1)));
        }
    }
    proof {
        assert(dc.env.take(dc.env.len() as int) =~= dc.env);
        assert(out@ =~= old(out)@ + enc_desc(dc));
    }
}

fn status_to_bits(st: i32) -> (r: u32)
    ensures
        r == status_bits(st),
{
    if st >= 0 {
        st as u32
    } else {
        ((st as i64) + 0x100000000i64) as u32
    }
}

fn bits_to_status(x: u32) -> (r: i32)
    ensures
        r == status_of_bits(x),
{
    if x >= 0x80000000 {
        ((x as i64) - 0x100000000i64) as i32
    } else {
        x as i32
    }
}

/// Encodes a record into its deterministic wire form.
pub fn serialize(inv: &Invocation) -> (out: Vec<u8>)
    requires
        inv@.command.args.len() >= 1,
    ensures
        out@ == enc_record(record_cp(inv@)),
        record_cp_valid(record_cp(inv@)),
{
    let ghost rc = record_cp(inv@);
    let mut out: Vec<u8> = Vec::new();
    proof {
        assert(out@ + enc_desc(rc.command) =~= enc_desc(rc.command));
    }
    ser_desc(&mut out, inv.command());
    ser_bytes(&mut out, &inv.stdout);
    ser_bytes(&mut out, &inv.stderr);
    push_u32(&mut out, status_to_bits(inv.status));
    push_u64(&mut out, inv.runtime);
    proof {
        assert(out@ =~= enc_record(rc));
    }
    out
}

// ----- parser executables -----

/// Relies on char::from_u32: a character comes back exactly for Unicode
/// scalar values, and it is the character with that code point.
pub assume_specification[ char::from_u32 ](v: u32) -> (r: Option<char>)
    ensures
        r is Some <==> valid_scalar(v),
        r matches Some(c) ==> c as u32 == v,
;

/// Relies on String::push: appends exactly the one character.
#[verifier::external_body]
pub(crate) fn append_char(s: &mut String, c: char)
    ensures
        final(s)@ == old(s)@ + seq![c],
{
    s.push(c);
}

pub proof fn lemma_sp_cp_list_bound(s: Seq<u8>, i: int, n: nat)
    requires
        0 <= i <= s.len(),
    ensures
        match sp_cp_list(s, i, n) {
            Some((v, end)) => v.len() == n && end == i + 4 * n && end <= s.len(),
            None => true,
        },
    decreases n,
{
    if n > 0 {
        match sp_cp(s, i) {
            None => {},
            Some((c, j)) => {
                lemma_sp_cp_list_bound(s, j, (n - 1) as nat);
            },
        }
    }
}

pub proof fn lemma_sp_str_bound(s: Seq<u8>, i: int)
    requires
        0 <= i <= s.len(),
    ensures
        match sp_str(s, i) {
            Some((v, end)) => i + 8 <= end <= s.len() && end == i + 8 + 4 * v.len(),
            None => true,
        },
{
    match sp_u64(s, i) {
        None => {},
        Some((len, j)) => {
            lemma_sp_cp_list_bound(s, j, len as nat);
        },
    }
}

pub proof fn lemma_sp_str_list_bound(s: Seq<u8>, i: int, n: nat)
    requires
        0 <= i <= s.len(),
    ensures
        match sp_str_list(s, i, n) {
            Some((v, end)) => v.len() == n && i + 8 * n <= end <= s.len(),
            None => true,
        },
    decreases n,
{
    if n > 0 {
        lemma_sp_str_bound(s, i);
        match sp_str(s, i) {
            None => {},
            Some((v0, j)) => {
                lemma_sp_str_list_bound(s, j, (n - 1) as nat);
            },
        }
    }
}

pub proof fn lemma_sp_pair_list_bound(s: Seq<u8>, i: int, n: nat)
    requires
        0 <= i <= s.len(),
    ensures
        match sp_pair_list(s, i, n) {
            Some((v, end)) => v.len() == n && i + 16 * n <= end <= s.len(),
            None => true,
        },
    decreases n,
{
    if n > 0 {
        lemma_sp_str_bound(s, i);
        match sp_str(s, i) {
            None => {},
            Some((k0, j)) => {
                lemma_sp_str_bound(s, j);
                match sp_str(s, j) {
                    None => {},
                    Some((v0, j2)) => {
                        lemma_sp_pair_list_bound(s, j2, (n - 1) as nat);
                    },
                }
            },
        }
    }
}

fn p_u64(s: &Vec<u8>, i: usize) -> (r: Option<(u64, usize)>)
    ensures
        match sp_u64(s@, i as int) {
            Some((x, j)) => r matches Some(rr) && rr.0 == x && rr.1 == j,
            None => r is None,
        },
{
    if s.len() >= 8 && i <= s.len() - 8 {
        let sub = slice_subrange(s.as_slice(), i, i + 8);
        Some((u64_from_le_bytes(sub), i + 8))
    } else {
        None
    }
}

fn p_u32(s: &Vec<u8>, i: usize) -> (r: Option<(u32, usize)>)
    ensures
        match sp_u32(s@, i as int) {
            Some((x, j)) => r matches Some(rr) && rr.0 == x && rr.1 == j,
            None => r is None,
        },
{
    if s.len() >= 4 && i <= s.len() - 4 {
        let sub = slice_subrange(s.as_slice(), i, i + 4);
        Some((u32_from_le_bytes(sub), i + 4))
    } else {
        None
    }
}

#[verifier::loop_isolation(false)]
fn p_str(s: &Vec<u8>, i: usize) -> (r: Option<(String, usize)>)
    requires
        i <= s@.len(),
    ensures
        match sp_str(s@, i as int) {
            Some((v, end)) => r matches Some(rr) && cps(rr.0@) == v && rr.1 == end,
            None => r is None,
        },
{
    let first = p_u64(s, i);
    if first.is_none() {
        return None;
    }
    let (len, j) = first.unwrap();
    let rem = s.len() - j;
    if len > (rem as u64) / 4 {
        proof {
            lemma_sp_cp_list_bound(s@, j as int, len as nat);
            assert(4 * ((rem as u64) / 4) <= rem);
        }
        return None;
    }
    let n = len as usize;
    let mut out = String::new();
    let mut pos = j;
    let ghost nn = n as nat;
    for k in 0..n
        invariant
            j <= pos <= s@.len(),
            match sp_cp_list(s@, pos as int, (n - k) as nat) {
                None => sp_cp_list(s@, j as int, nn) is None,
                Some((rest, end)) => sp_cp_list(s@, j as int, nn) == Some(
                    (cps(out@) + rest, end),
                ),
            },
    {
        let cur = p_u32(s, pos);
        if cur.is_none() {
            return None;
        }
        let (x, pos2) = cur.unwrap();
        match char::from_u32(x) {
            None => {
                return None;
            },
            Some(c) => {
                let ghost out0 = out@;
                append_char(&mut out, c);
                pos = pos2;
                proof {
                    assert(cps(out@) =~= cps(out0) + seq![c as u32]);
                    match sp_cp_list(s@, pos as int, (n - k - 1) as nat) {
                        None => {},
                        Some((rest, end)) => {
                            assert((cps(out0) + seq![c as u32]) + rest =~= cps(out0) + (seq![
                                c as u32,
                            ] + rest));
                        },
                    }
                }
            },
        }
    }
    proof {
        assert(cps(out@) + Seq::<u32>::empty() =~= cps(out@));
    }
    Some((out, pos))
}

fn p_bytes(s: &Vec<u8>, i: usize) -> (r: Option<(Vec<u8>, usize)>)
    ensures
        match sp_bytes(s@, i as int) {
            Some((b, end)) => r matches Some(rr) && rr.0@ == b && rr.1 == end,
            None => r is None,
        },
{
    let first = p_u64(s, i);
    if first.is_none() {
        return None;
    }
    let (len, j) = first.unwrap();
    if len > (s.len() - j) as u64 {
        return None;
    }
    let n = len as usize;
    let sub = slice_subrange(s.as_slice(), j, j + n);
    Some((slice_to_vec(sub), j + n))
}

/// The code-point image of an optional string.
pub open spec fn opt_cps(o: Option<String>) -> Option<Seq<u32>> {
    match o {
        None => None,
        Some(s) => Some(cps(s@)),
    }
}

fn p_opt_str(s: &Vec<u8>, i: usize) -> (r: Option<(Option<String>, usize)>)
    ensures
        match sp_opt_str(s@, i as int) {
            Some((o, end)) => r matches Some(rr) && opt_cps(rr.0) == o && rr.1 == end,
            None => r is None,
        },
{
    if i >= s.len() {
        return None;
    }
    let t = s[i];
    if t == 0 {
        Some((None, i + 1))
    } else if t == 1 {
        match p_str(s, i + 1) {
            None => None,
            Some((st, j)) => Some((Some(st), j)),
        }
    } else {
        None
    }
}

fn p_str_list(s: &Vec<u8>, i: usize, n: usize) -> (r: Option<(Vec<String>, usize)>)
    requires
        i <= s@.len(),
    ensures
        match sp_str_list(s@, i as int, n as nat) {
            Some((v, end)) => r matches Some(rr) && rr.0@.map_values(|x: String| cps(x@)) == v
                && rr.1 == end,
            None => r is None,
        },
    decreases n,
{
    if n == 0 {
        let out: Vec<String> = Vec::new();
        proof {
            assert(out@.map_values(|x: String| cps(x@)) =~= Seq::<Seq<u32>>::empty());
        }
        return Some((out, i));
    }
    proof {
        lemma_sp_str_bound(s@, i as int);
    }
    match p_str(s, i) {
        None => None,
        Some((v0, j)) => {
            match p_str_list(s, j, n - 1) {
                None => None,
                Some((mut rest, k)) => {
                    let ghost r0 = rest@;
                    rest.insert(0, v0);
                    proof {
                        let f = |x: String| cps(x@);
                        assert forall|m: int| 0 <= m < rest@.len() implies #[trigger] rest@.map_values(
                            f,
                        )[m] == (seq![cps(v0@)] + r0.map_values(f))[m] by {
                            if m > 0 {
                                assert(rest@[m] == r0[m - 1]);
                            }
                        }
                        assert(rest@.map_values(f) =~= seq![cps(v0@)] + r0.map_values(f));
                    }
                    Some((rest, k))
                },
            }
        },
    }
}

fn p_pair_list(s: &Vec<u8>, i: usize, n: usize) -> (r: Option<(Vec<(String, String)>, usize)>)
    requires
        i <= s@.len(),
    ensures
        match sp_pair_list(s@, i as int, n as nat) {
            Some((v, end)) => r matches Some(rr) && rr.0@.map_values(
                |p: (String, String)| (cps(p.0@), cps(p.1@)),
            ) == v && rr.1 == end,
            None => r is None,
        },
    decreases n,
{
    if n == 0 {
        let out: Vec<(String, String)> = Vec::new();
        proof {
            assert(out@.map_values(|p: (String, String)| (cps(p.0@), cps(p.1@))) =~= Seq::<
                (Seq<u32>, Seq<u32>),
            >::empty());
        }
        return Some((out, i));
    }
    proof {
        lemma_sp_str_bound(s@, i as int);
    }
    match p_str(s, i) {
        None => None,
        Some((k0, j)) => {
            proof {
                lemma_sp_str_bound(s@, j as int);
            }
            match p_str(s, j) {
                None => None,
                Some((v0, j2)) => {
                    match p_pair_list(s, j2, n - 1) {
                        None => None,
                        Some((mut rest, k)) => {
                            let ghost r0 = rest@;
                            rest.insert(0, (k0, v0));
                            proof {
                                let f = |p: (String, String)| (cps(p.0@), cps(p.1@));
                                assert forall|m: int| 0 <= m < rest@.len() implies #[trigger] rest@.map_values(
                                    f,
                                )[m] == (seq![(cps(rest@[0].0@), cps(rest@[0].1@))]
                                    + r0.map_values(f))[m] by {
                                    if m > 0 {
                                        assert(rest@[m] == r0[m - 1]);
                                    }
                                }
                                assert(rest@.map_values(f) =~= seq![
                                    (cps(rest@[0].0@), cps(rest@[0].1@)),
                                ] + r0.map_values(f));
                            }
                            Some((rest, k))
                        },
                    }
                },
            }
        },
    }
}

fn p_desc(s: &Vec<u8>, i: usize) -> (r: Option<(CommandDesc, usize)>)
    requires
        i <= s@.len(),
    ensures
        match sp_desc(s@, i as int) {
            Some((dc, end)) => r matches Some(rr) && desc_cp(rr.0@) == dc && rr.1 == end
                && rr.0@.args.len() >= 1,
            None => r is None,
        },
{
    let first = p_u64(s, i);
    if first.is_none() {
        return None;
    }
    let (count, j) = first.unwrap();
    if count == 0 {
        return None;
    }
    if count > ((s.len() - j) as u64) / 8 {
        proof {
            lemma_sp_str_list_bound(s@, j as int, count as nat);
            assert(8 * (((s@.len() - j) as u64) / 8) <= s@.len() - j);
        }
        return None;
    }
    let args = match p_str_list(s, j, count as usize) {
        None => {
            return None;
        },
        Some(x) => x,
    };
    let (args_v, j2) = args;
    proof {
        lemma_sp_str_list_bound(s@, j as int, count as nat);
    }
    let cwd = match p_opt_str(s, j2) {
        None => {
            return None;
        },
        Some(x) => x,
    };
    let (cwd_v, j3) = cwd;
    let fourth = p_u64(s, j3);
    if fourth.is_none() {
        return None;
    }
    let (ecount, j4) = fourth.unwrap();
    if ecount > ((s.len() - j4) as u64) / 16 {
        proof {
            lemma_sp_pair_list_bound(s@, j4 as int, ecount as nat);
            assert(16 * (((s@.len() - j4) as u64) / 16) <= s@.len() - j4);
        }
        return None;
    }
    let env = match p_pair_list(s, j4, ecount as usize) {
        None => {
            return None;
        },
        Some(x) => x,
    };
    let (env_v, j5) = env;
    let ghost dc = match sp_desc(s@, i as int) {
        Some((d, _)) => d,
        None => DescCp { args: Seq::empty(), cwd: None, env: Seq::empty() },
    };
    let d = CommandDesc::from_parts(args_v, cwd_v, env_v);
    proof {
        assert forall|m: int| 0 <= m < desc_cp(d@).args.len() implies #[trigger] desc_cp(
            d@,
        ).args[m] == dc.args[m] by {}
        assert(desc_cp(d@).args =~= dc.args);
        assert forall|m: int| 0 <= m < desc_cp(d@).env.len() implies #[trigger] desc_cp(d@).env[m]
            == dc.env[m] by {}
        assert(desc_cp(d@).env =~= dc.env);
        assert(desc_cp(d@) =~= dc);
    }
    Some((d, j5))
}

fn p_record(s: &Vec<u8>, i: usize) -> (r: Option<(Invocation, usize)>)
    requires
        i <= s@.len(),
    ensures
        match sp_record(s@, i as int) {
            Some((rc, end)) => r matches Some(rr) && record_cp(rr.0@) == rc && rr.1 == end
                && rr.0@.command.args.len() >= 1,
            None => r is None,
        },
{
    let command = match p_desc(s, i) {
        None => {
            return None;
        },
        Some(x) => x,
    };
    let (command_v, j) = command;
    let stdout = match p_bytes(s, j) {
        None => {
            return None;
        },
        Some(x) => x,
    };
    let (stdout_v, j2) = stdout;
    let stderr = match p_bytes(s, j2) {
        None => {
            return None;
        },
        Some(x) => x,
    };
    let (stderr_v, j3) = stderr;
    let fourth = p_u32(s, j3);
    if fourth.is_none() {
        return None;
    }
    let (sb, j4) = fourth.unwrap();
    let fifth = p_u64(s, j4);
    if fifth.is_none() {
        return None;
    }
    let (runtime, j5) = fifth.unwrap();
    let inv = Invocation::new(command_v, stdout_v, stderr_v, bits_to_status(sb), runtime);
    proof {
        match sp_record(s@, i as int) {
            Some((rc, end)) => {
                assert(record_cp(inv@) =~= rc);
            },
            None => {},
        }
    }
    Some((inv, j5))
}

/// Decodes a record from its wire form; fails on any malformed input or
/// trailing bytes.
pub fn deserialize(bytes: &Vec<u8>) -> (r: Option<Invocation>)
    ensures
        match sp_record(bytes@, 0) {
            Some((rc, end)) => if end == bytes@.len() as int {
                r matches Some(inv) && record_cp(inv@) == rc && inv@.command.args.len() >= 1
            } else {
                r is None
            },
            None => r is None,
        },
{
    match p_record(bytes, 0) {
        None => None,
        Some((inv, j)) => {
            if j == bytes.len() {
                Some(inv)
            } else {
                None
            }
        },
    }
}

} // verus!
