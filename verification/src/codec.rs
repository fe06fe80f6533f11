//! The caller-facing wad-bundle format.
//!
//! A bundle is a colon-separated sequence of segments, one per wad; each
//! segment is the fixed literal tag `cashuB` followed by the base64 encoding
//! of the wad's payload. The payload itself is a length-prefixed rendering
//! of the wad's fields: every number is twenty zero-padded decimal digits,
//! and every string is its length followed by its characters.
use vstd::prelude::*;

use base64::Engine;

use crate::balances::{spec_unit_symbol, unit_canonical, Unit};
use crate::digits::{
    all_digits, digits_val, fixed_digits, lemma_fixed_digits_shape, lemma_fixed_digits_val,
    lemma_pow10_19, pow10,
};
use crate::strutil::{chars_vec, string_from_chars};
use crate::wad::{opt_str_view, proofs_view, wads_view, Proof, ProofV, Wad, WadV};

verus! {

/// What the base64 encoder returns for the UTF-8 bytes of a character
/// sequence; a function of the characters alone.
pub uninterp spec fn b64_of(s: Seq<char>) -> Seq<char>;

/// Relies on `base64::engine::general_purpose::STANDARD.encode`: the result
/// is a deterministic function of the input bytes, over the standard
/// alphabet (`A`-`Z`, `a`-`z`, `0`-`9`, `+`, `/`) with `=` padding, none of
/// which is a colon.
#[verifier::external_body]
fn b64_encode(s: &str) -> (r: String)
    ensures
        r@ == b64_of(s@),
        forall|i: int| 0 <= i < r@.len() ==> r@[i] != ':',
{
    base64::engine::general_purpose::STANDARD.encode(s.as_bytes())
}

/// Relies on `base64::engine::general_purpose::STANDARD.decode`: decoding
/// the encoding of any byte string yields that byte string back; and since
/// the STANDARD engine requires canonical padding and rejects nonzero
/// trailing bits, decoding succeeds only on the canonical encoding of the
/// returned bytes. The UTF-8 bytes of a Rust string convert back to the same
/// string, so a successful result pins the input to its encoding.
#[verifier::external_body]
fn b64_decode(s: &str) -> (r: Option<String>)
    ensures
        match r {
            Some(x) => s@ == b64_of(x@) && forall|t: Seq<char>| s@ == b64_of(t) ==> x@ == t,
            None => forall|t: Seq<char>| s@ != b64_of(t),
        },
{
    match base64::engine::general_purpose::STANDARD.decode(s.as_bytes()) {
        Ok(b) => String::from_utf8(b).ok(),
        Err(_) => None,
    }
}

/// A number rendered as twenty zero-padded decimal digits.
pub open spec fn enc_u64(n: nat) -> Seq<char> {
    fixed_digits(20, n)
}

/// A string rendered as its length followed by its characters.
pub open spec fn enc_str(s: Seq<char>) -> Seq<char> {
    enc_u64(s.len()) + s
}

/// An optional memo: a presence flag, then the memo itself when present.
pub open spec fn enc_memo(m: Option<Seq<char>>) -> Seq<char> {
    match m {
        None => seq!['0'],
        Some(s) => seq!['1'] + enc_str(s),
    }
}

/// One proof: its amount, then its secret.
pub open spec fn enc_proof(p: ProofV) -> Seq<char> {
    enc_u64(p.amount as nat) + enc_str(p.secret)
}

/// A sequence of proofs, in order.
pub open spec fn enc_proofs(ps: Seq<ProofV>) -> Seq<char>
    decreases ps.len(),
{
    if ps.len() == 0 {
        Seq::empty()
    } else {
        enc_proof(ps.first()) + enc_proofs(ps.drop_first())
    }
}

/// The payload of one wad: node URL, unit identifier, memo, proof count,
/// then the proofs.
pub open spec fn payload_of(w: WadV) -> Seq<char> {
    enc_str(w.node_url) + enc_str(spec_unit_symbol(w.unit)) + enc_memo(w.memo) + enc_u64(
        w.proofs.len(),
    ) + enc_proofs(w.proofs)
}

/// A wad the payload format can carry faithfully: its unit is canonical and
/// every length fits the twenty-digit field of a `u64`.
pub open spec fn payload_wf(w: WadV) -> bool {
    &&& unit_canonical(w.unit)
    &&& w.node_url.len() <= u64::MAX
    &&& spec_unit_symbol(w.unit).len() <= u64::MAX
    &&& (w.memo matches Some(m) ==> m.len() <= u64::MAX)
    &&& w.proofs.len() <= u64::MAX
    &&& forall|k: int| 0 <= k < w.proofs.len() ==> (#[trigger] w.proofs[k]).secret.len() <= u64::MAX
}

/// The wire segment of one wad.
pub open spec fn seg_of(w: WadV) -> Seq<char> {
    "cashuB"@ + b64_of(payload_of(w))
}

/// No character of `s` is a colon.
pub open spec fn colon_free(s: Seq<char>) -> bool {
    forall|i: int| 0 <= i < s.len() ==> s[i] != ':'
}

/// Segments joined with colons.
pub open spec fn join_segs(ss: Seq<Seq<char>>) -> Seq<char>
    decreases ss.len(),
{
    if ss.len() == 0 {
        Seq::empty()
    } else if ss.len() == 1 {
        ss.first()
    } else {
        ss.first() + seq![':'] + join_segs(ss.drop_first())
    }
}

/// `s` is the wire form of exactly the wad list `wl`: the colon-join of the
/// wads' segments, each well-formed and colon-free past its tag.
pub open spec fn bundle_encodes(s: Seq<char>, wl: Seq<WadV>) -> bool {
    &&& s == join_segs(wl.map_values(|w: WadV| seg_of(w)))
    &&& forall|k: int| 0 <= k < wl.len() ==> payload_wf(#[trigger] wl[k])
    &&& forall|k: int| 0 <= k < wl.len() ==> colon_free(b64_of(payload_of(#[trigger] wl[k])))
}

/// Emits a number as its twenty-digit field.
fn emit_u64(out: &mut Vec<char>, n: u64)
    ensures
        final(out)@ == old(out)@ + enc_u64(n as nat),
{
    crate::digits::emit_fixed_digits(20, n, out);
}

/// Emits a string as its length field followed by its characters.
fn emit_str(out: &mut Vec<char>, s: &str)
    ensures
        final(out)@ == old(out)@ + enc_str(s@),
        s@.len() <= u64::MAX,
{
    let cs = chars_vec(s);
    let l = cs.len();
    emit_u64(out, l as u64);
    let mut j: usize = 0;
    while j < l
        invariant
            l == cs@.len(),
            cs@ == s@,
            j <= l,
            out@ == old(out)@ + enc_u64(s@.len()) + s@.take(j as int),
        decreases l - j,
    {
        out.push(cs[j]);
        proof {
            assert(out@ =~= old(out)@ + enc_u64(s@.len()) + s@.take(j + 1));
        }
        j += 1;
    }
    proof {
        assert(out@ =~= old(out)@ + enc_str(s@)) by {
            assert(s@.take(l as int) =~= s@);
        }
    }
}

/// Appending one proof extends the rendering of a proof sequence.
proof fn lemma_enc_proofs_push(ps: Seq<ProofV>, p: ProofV)
    ensures
        enc_proofs(ps.push(p)) == enc_proofs(ps) + enc_proof(p),
    decreases ps.len(),
{
    if ps.len() == 0 {
        assert(ps.push(p).drop_first() =~= Seq::<ProofV>::empty());
        assert(ps.push(p).first() == p);
        assert(enc_proofs(Seq::<ProofV>::empty()) =~= Seq::<char>::empty());
        assert(enc_proofs(ps.push(p)) =~= enc_proof(p) + Seq::<char>::empty());
        assert(enc_proof(p) + Seq::<char>::empty() =~= Seq::<char>::empty() + enc_proof(p));
    } else {
        lemma_enc_proofs_push(ps.drop_first(), p);
        assert(ps.push(p).drop_first() =~= ps.drop_first().push(p));
        assert(ps.push(p).first() == ps.first());
        assert(enc_proof(ps.first()) + (enc_proofs(ps.drop_first()) + enc_proof(p)) =~= (enc_proof(
            ps.first(),
        ) + enc_proofs(ps.drop_first())) + enc_proof(p));
    }
}

/// Renders the payload of one wad.
fn encode_payload(w: &Wad) -> (v: Vec<char>)
    requires
        unit_canonical(w@.unit),
    ensures
        v@ == payload_of(w@),
        payload_wf(w@),
{
    let mut out: Vec<char> = Vec::new();
    emit_str(&mut out, w.node_url.as_str());
    let sym = w.unit.symbol();
    emit_str(&mut out, sym.as_str());
    match &w.memo {
        None => {
            out.push('0');
            proof {
                assert(out@ =~= enc_str(w@.node_url) + enc_str(spec_unit_symbol(w@.unit))
                    + enc_memo(w@.memo));
            }
        },
        Some(m) => {
            out.push('1');
            emit_str(&mut out, m.as_str());
            proof {
                assert(out@ =~= enc_str(w@.node_url) + enc_str(spec_unit_symbol(w@.unit))
                    + enc_memo(w@.memo));
            }
        },
    }
    let ghost head = enc_str(w@.node_url) + enc_str(spec_unit_symbol(w@.unit)) + enc_memo(w@.memo);
    let n = w.proofs.len();
    emit_u64(&mut out, n as u64);
    let mut j: usize = 0;
    while j < n
        invariant
            n == w.proofs.len(),
            unit_canonical(w@.unit),
            j <= n,
            head == enc_str(w@.node_url) + enc_str(spec_unit_symbol(w@.unit)) + enc_memo(w@.memo),
            out@ == head + enc_u64(n as nat) + enc_proofs(w@.proofs.take(j as int)),
            forall|k: int|
                0 <= k < j ==> (#[trigger] w@.proofs[k]).secret.len() <= u64::MAX,
        decreases n - j,
    {
        proof {
            assert(w@.proofs[j as int] == w.proofs@[j as int]@);
        }
        emit_u64(&mut out, w.proofs[j].amount);
        emit_str(&mut out, w.proofs[j].secret.as_str());
        proof {
            lemma_enc_proofs_push(w@.proofs.take(j as int), w@.proofs[j as int]);
            assert(w@.proofs.take(j + 1) =~= w@.proofs.take(j as int).push(w@.proofs[j as int]));
            assert(out@ =~= head + enc_u64(n as nat) + enc_proofs(w@.proofs.take(j + 1)));
        }
        j += 1;
    }
    proof {
        assert(w@.proofs.take(n as int) =~= w@.proofs);
        assert(out@ =~= payload_of(w@));
    }
    out
}

/// Joining one more segment appends a separator and the segment.
proof fn lemma_join_push(ss: Seq<Seq<char>>, s: Seq<char>)
    ensures
        ss.len() == 0 ==> join_segs(ss.push(s)) == s,
        ss.len() > 0 ==> join_segs(ss.push(s)) == join_segs(ss) + seq![':'] + s,
    decreases ss.len(),
{
    if ss.len() == 0 {
        assert(ss.push(s).len() == 1);
        assert(ss.push(s).first() == s);
    } else {
        lemma_join_push(ss.drop_first(), s);
        assert(ss.push(s).drop_first() =~= ss.drop_first().push(s));
        assert(ss.push(s).first() == ss.first());
        if ss.len() == 1 {
            assert(join_segs(ss) == ss.first());
            assert(join_segs(ss.push(s)) == ss.first() + seq![':'] + s);
        } else {
            assert(ss.first() + seq![':'] + (join_segs(ss.drop_first()) + seq![':'] + s) =~= (
            ss.first() + seq![':'] + join_segs(ss.drop_first())) + seq![':'] + s);
        }
    }
}

/// Serializes a list of wads into the caller-facing bundle string: the
/// colon-join of one tagged, base64 segment per wad, in order. The result
/// encodes exactly the given list.
pub fn serialize_wads(ws: &Vec<Wad>) -> (r: String)
    requires
        forall|k: int| 0 <= k < ws@.len() ==> unit_canonical((#[trigger] ws@[k])@.unit),
    ensures
        bundle_encodes(r@, wads_view(ws@)),
{
    let mut out = String::new();
    let n = ws.len();
    let mut k: usize = 0;
    while k < n
        invariant
            n == ws@.len(),
            k <= n,
            forall|j: int| 0 <= j < n ==> unit_canonical((#[trigger] ws@[j])@.unit),
            out@ == join_segs(wads_view(ws@).take(k as int).map_values(|w: WadV| seg_of(w))),
            forall|j: int| 0 <= j < k ==> payload_wf((#[trigger] wads_view(ws@)[j])),
            forall|j: int|
                0 <= j < k ==> colon_free(b64_of(payload_of(#[trigger] wads_view(ws@)[j]))),
        decreases n - k,
    {
        if k > 0 {
            out.append(":");
        }
        let payload = encode_payload(&ws[k]);
        let ps = string_from_chars(&payload);
        let seg = b64_encode(ps.as_str());
        out.append("cashuB");
        out.append(seg.as_str());
        proof {
            reveal_strlit(":");
            assert(":"@ =~= seq![':']);
            assert(wads_view(ws@)[k as int] == ws@[k as int]@);
            let ghost segs = wads_view(ws@).take(k as int).map_values(|w: WadV| seg_of(w));
            lemma_join_push(segs, seg_of(wads_view(ws@)[k as int]));
            assert(segs.len() == k);
            assert(wads_view(ws@).take(k + 1).map_values(|w: WadV| seg_of(w)) =~= segs.push(
                seg_of(wads_view(ws@)[k as int]),
            ));
            assert(out@ =~= join_segs(wads_view(ws@).take(k + 1).map_values(|w: WadV| seg_of(w))));
        }
        k += 1;
    }
    proof {
        assert(wads_view(ws@).take(n as int) =~= wads_view(ws@));
    }
    out
}


/// A window of a known window of `v` is the corresponding window of its
/// contents.
proof fn lemma_subrange_within(v: Seq<char>, i: int, a: Seq<char>, off: int, off2: int)
    requires
        0 <= i,
        i + a.len() <= v.len(),
        v.subrange(i, i + a.len()) == a,
        0 <= off <= off2 <= a.len(),
    ensures
        v.subrange(i + off, i + off2) == a.subrange(off, off2),
{
    assert forall|t: int| 0 <= t < off2 - off implies v[i + off + t] == #[trigger] a[off + t] by {
        assert(v.subrange(i, i + a.len())[off + t] == a[off + t]);
    }
    assert(v.subrange(i + off, i + off2) =~= a.subrange(off, off2));
}

/// Length facts of the primitive encodings.
pub proof fn lemma_enc_u64_shape(n: nat)
    ensures
        enc_u64(n).len() == 20,
        all_digits(enc_u64(n)),
{
    lemma_fixed_digits_shape(20, n);
}

/// A number below `2^64` survives the twenty-digit field.
pub proof fn lemma_enc_u64_val(n: nat)
    requires
        n <= u64::MAX,
    ensures
        digits_val(enc_u64(n)) == n,
{
    lemma_pow10_19();
    assert(pow10(20) == 10 * pow10(19));
    lemma_fixed_digits_val(20, n);
}

/// Reads the twenty-digit number field at `i`.
fn read_u64(v: &Vec<char>, i: usize) -> (r: Option<(u64, usize)>)
    requires
        i <= v@.len(),
    ensures
        r matches Some(p) ==> i + 20 <= v@.len() && p.1 == i + 20 && v@.subrange(
            i as int,
            i as int + 20,
        ) == enc_u64(p.0 as nat),
        forall|n: u64|
            (i + 20 <= v@.len() && v@.subrange(i as int, i as int + 20) == enc_u64(n as nat)) ==> (
            r matches Some(p) && p.0 == n && p.1 == i + 20),
{
    if v.len() - i < 20 {
        return None;
    }
    let x = crate::amount::digits_value(v, i, i + 20);
    proof {
        assert forall|n: u64| v@.subrange(i as int, i as int + 20) == enc_u64(n as nat) implies (
        x matches Some(y) && y == n) by {
            lemma_enc_u64_shape(n as nat);
            lemma_enc_u64_val(n as nat);
        }
        if x matches Some(y) {
            // The twenty digits read are the canonical rendering of their value.
            crate::digits::lemma_fixed_digits_unique(v@.subrange(i as int, i as int + 20));
        }
    }
    match x {
        Some(y) => Some((y, i + 20)),
        None => None,
    }
}

/// Copies `v[from..to]` into a fresh vector.
fn copy_range(v: &Vec<char>, from: usize, to: usize) -> (r: Vec<char>)
    requires
        from <= to <= v@.len(),
    ensures
        r@ == v@.subrange(from as int, to as int),
{
    let mut r: Vec<char> = Vec::new();
    let mut j: usize = from;
    while j < to
        invariant
            from <= j <= to <= v@.len(),
            r@ == v@.subrange(from as int, j as int),
        decreases to - j,
    {
        r.push(v[j]);
        proof {
            assert(r@ =~= v@.subrange(from as int, j + 1));
        }
        j += 1;
    }
    r
}

/// Reads the length-prefixed string field at `i`.
fn read_str(v: &Vec<char>, i: usize) -> (r: Option<(String, usize)>)
    requires
        i <= v@.len(),
    ensures
        r matches Some(p) ==> i + 20 <= p.1 <= v@.len() && p.0@.len() <= u64::MAX && p.1 == i + 20
            + p.0@.len() && v@.subrange(i as int, p.1 as int) == enc_str(p.0@),
        forall|s: Seq<char>|
            (s.len() <= u64::MAX && i + 20 + s.len() <= v@.len() && v@.subrange(
                i as int,
                i as int + 20 + s.len(),
            ) == enc_str(s)) ==> (r matches Some(p) && p.0@ == s && p.1 == i + 20 + s.len()),
{
    proof {
        assert forall|s: Seq<char>|
            (s.len() <= u64::MAX && i + 20 + s.len() <= v@.len() && v@.subrange(
                i as int,
                i as int + 20 + s.len(),
            ) == enc_str(s)) implies v@.subrange(i as int, i as int + 20) == enc_u64(
            (s.len() as u64) as nat,
        ) by {
            lemma_enc_u64_shape(s.len());
            assert(v@.subrange(i as int, i as int + 20) =~= enc_str(s).take(20));
            assert(enc_str(s).take(20) =~= enc_u64(s.len()));
        }
    }
    let lp = read_u64(v, i);
    match lp {
        None => None,
        Some((l, p)) => {
            if l > (v.len() - p) as u64 {
                proof {
                    assert forall|s: Seq<char>|
                        (s.len() <= u64::MAX && i + 20 + s.len() <= v@.len() && v@.subrange(
                            i as int,
                            i as int + 20 + s.len(),
                        ) == enc_str(s)) implies false by {
                        assert(l == s.len());
                    }
                }
                return None;
            }
            let lu = l as usize;
            let cs = copy_range(v, p, p + lu);
            let t = string_from_chars(&cs);
            proof {
                // Soundness: the window read is exactly the encoding of the
                // returned string.
                lemma_enc_u64_shape(t@.len());
                assert(v@.subrange(i as int, (p + lu) as int) =~= enc_str(t@)) by {
                    assert(v@.subrange(i as int, i as int + 20) == enc_u64(l as nat));
                    assert forall|q: int|
                        0 <= q < 20 + t@.len() implies v@.subrange(
                        i as int,
                        (p + lu) as int,
                    )[q] == enc_str(t@)[q] by {
                        if q < 20 {
                            assert(v@.subrange(i as int, i as int + 20)[q] == enc_u64(
                                l as nat,
                            )[q]);
                        } else {
                            assert(t@[q - 20] == v@.subrange(p as int, (p + lu) as int)[q - 20]);
                        }
                    }
                }
            }
            proof {
                assert forall|s: Seq<char>|
                    (s.len() <= u64::MAX && i + 20 + s.len() <= v@.len() && v@.subrange(
                        i as int,
                        i as int + 20 + s.len(),
                    ) == enc_str(s)) implies t@ == s && p + lu == i + 20 + s.len() by {
                    assert(l == s.len());
                    lemma_enc_u64_shape(s.len());
                    assert(t@ =~= s) by {
                        assert(cs@ =~= enc_str(s).subrange(20, 20 + s.len() as int));
                        assert(enc_str(s).subrange(20, 20 + s.len() as int) =~= s);
                    }
                }
            }
            Some((t, p + lu))
        },
    }
}

/// Reads the optional memo field at `i`.
fn read_memo(v: &Vec<char>, i: usize) -> (r: Option<(Option<String>, usize)>)
    requires
        i <= v@.len(),
    ensures
        r matches Some(p) ==> i < p.1 <= v@.len() && (p.0 matches Some(m) ==> m@.len()
            <= u64::MAX) && p.1 == i + enc_memo(opt_str_view(p.0)).len() && v@.subrange(
            i as int,
            p.1 as int,
        ) == enc_memo(opt_str_view(p.0)),
        forall|m: Option<Seq<char>>|
            ((m matches Some(s) ==> s.len() <= u64::MAX) && i + enc_memo(m).len() <= v@.len()
                && v@.subrange(i as int, i as int + enc_memo(m).len()) == enc_memo(m)) ==> (
            r matches Some(p) && crate::wad::opt_str_view(p.0) == m && p.1 == i + enc_memo(
                m,
            ).len()),
{
    if i >= v.len() {
        return None;
    }
    let c = v[i];
    if c == '0' {
        proof {
            assert forall|m: Option<Seq<char>>|
                ((m matches Some(s) ==> s.len() <= u64::MAX) && i + enc_memo(m).len() <= v@.len()
                    && v@.subrange(i as int, i as int + enc_memo(m).len()) == enc_memo(m)) implies m
                is None by {
                if m is Some {
                    lemma_enc_u64_shape(m->Some_0.len());
                    assert(enc_memo(m)[0] == '1');
                    assert(v@[i as int] == '1');
                }
            }
        }
        proof {
            assert(v@.subrange(i as int, i + 1) =~= enc_memo(opt_str_view(None)));
        }
        Some((None, i + 1))
    } else if c == '1' {
        proof {
            assert forall|m: Option<Seq<char>>|
                ((m matches Some(s) ==> s.len() <= u64::MAX) && i + enc_memo(m).len() <= v@.len()
                    && v@.subrange(i as int, i as int + enc_memo(m).len()) == enc_memo(m)) implies (
            m matches Some(s) && i + 1 + 20 + s.len() <= v@.len() && v@.subrange(
                i + 1,
                i as int + 1 + 20 + s.len(),
            ) == enc_str(s)) by {
                if m is None {
                    assert(enc_memo(m)[0] == '0');
                    assert(v@[i as int] == '0');
                } else {
                    let s = m->Some_0;
                    lemma_enc_u64_shape(s.len());
                    let a = enc_memo(m);
                    lemma_subrange_within(v@, i as int, a, 1, a.len() as int);
                    assert(a.subrange(1, a.len() as int) =~= enc_str(s));
                }
            }
        }
        match read_str(v, i + 1) {
            None => None,
            Some((t, j)) => {
                proof {
                    lemma_enc_u64_shape(t@.len());
                    assert(v@.subrange(i as int, j as int) =~= enc_memo(
                        opt_str_view(Some(t)),
                    )) by {
                        assert forall|q: int|
                            0 <= q < 1 + 20 + t@.len() implies v@.subrange(i as int, j as int)[q]
                            == enc_memo(opt_str_view(Some(t)))[q] by {
                            if q >= 1 {
                                assert(v@.subrange(i + 1, j as int)[q - 1] == enc_str(t@)[q - 1]);
                            }
                        }
                    }
                }
                Some((Some(t), j))
            },
        }
    } else {
        proof {
            assert forall|m: Option<Seq<char>>|
                ((m matches Some(s) ==> s.len() <= u64::MAX) && i + enc_memo(m).len() <= v@.len()
                    && v@.subrange(i as int, i as int + enc_memo(m).len()) == enc_memo(m)) implies
            false by {
                if m is None {
                    assert(enc_memo(m)[0] == '0');
                    assert(v@[i as int] == '0');
                } else {
                    let s = m->Some_0;
                    lemma_enc_u64_shape(s.len());
                    assert(enc_memo(m)[0] == '1');
                    assert(v@[i as int] == '1');
                }
            }
        }
        None
    }
}

/// Every secret of `ps` fits the twenty-digit length field.
pub open spec fn secrets_len_ok(ps: Seq<ProofV>) -> bool {
    forall|k: int| 0 <= k < ps.len() ==> (#[trigger] ps[k]).secret.len() <= u64::MAX
}

/// Reads `k` proofs starting at `i`, appending them to `out`.
fn read_proofs(v: &Vec<char>, i: usize, k: u64, out: &mut Vec<Proof>) -> (r: Option<usize>)
    requires
        i <= v@.len(),
    ensures
        r matches Some(j) ==> i <= j <= v@.len(),
        r matches Some(j) ==> final(out)@.len() == old(out)@.len() + k && (forall|t: int|
            0 <= t < old(out)@.len() ==> final(out)@[t] == old(out)@[t]) && secrets_len_ok(
            proofs_view(final(out)@).skip(old(out)@.len() as int),
        ) && v@.subrange(i as int, j as int) == enc_proofs(
            proofs_view(final(out)@).skip(old(out)@.len() as int),
        ),
        forall|ps: Seq<ProofV>|
            (ps.len() == k && secrets_len_ok(ps) && i + enc_proofs(ps).len() <= v@.len()
                && v@.subrange(i as int, i as int + enc_proofs(ps).len()) == enc_proofs(ps)) ==> (
            r matches Some(j) && j == i + enc_proofs(ps).len() && proofs_view(final(out)@)
                == proofs_view(old(out)@) + ps),
    decreases k,
{
    if k == 0 {
        proof {
            assert forall|ps: Seq<ProofV>| ps.len() == k implies enc_proofs(ps).len() == 0
                && proofs_view(out@) == proofs_view(out@) + ps by {
                assert(proofs_view(out@) =~= proofs_view(out@) + ps);
            }
            assert(proofs_view(out@).skip(out@.len() as int) =~= Seq::<ProofV>::empty());
            assert(v@.subrange(i as int, i as int) =~= Seq::<char>::empty());
            assert(enc_proofs(Seq::<ProofV>::empty()) =~= Seq::<char>::empty());
        }
        return Some(i);
    }
    let ghost hyp = |ps: Seq<ProofV>|
        ps.len() == k && secrets_len_ok(ps) && i + enc_proofs(ps).len() <= v@.len()
            && v@.subrange(i as int, i as int + enc_proofs(ps).len()) == enc_proofs(ps);
    proof {
        assert forall|ps: Seq<ProofV>| #[trigger] hyp(ps) implies (i + 20 <= v@.len()
            && v@.subrange(i as int, i as int + 20) == enc_u64((ps[0].amount as u64) as nat)) by {
            lemma_enc_u64_shape(ps[0].amount as nat);
            lemma_enc_u64_shape(ps[0].secret.len());
            assert(enc_proofs(ps) == enc_proof(ps.first()) + enc_proofs(ps.drop_first()));
            let a = enc_proofs(ps);
            lemma_subrange_within(v@, i as int, a, 0, 20);
            assert(a.subrange(0, 20) =~= enc_u64(ps[0].amount as nat));
        }
    }
    match read_u64(v, i) {
        None => {
            proof {
                assert forall|ps: Seq<ProofV>|
                    (ps.len() == k && secrets_len_ok(ps) && i + enc_proofs(ps).len() <= v@.len()
                            && v@.subrange(i as int, i as int + enc_proofs(ps).len())
                            == enc_proofs(ps)) implies false by {
                    assert(hyp(ps));
                }
            }
            None
        },
        Some((amt, p1)) => {
            proof {
                assert forall|ps: Seq<ProofV>| #[trigger] hyp(ps) implies (ps[0].secret.len()
                    <= u64::MAX && p1 + 20 + ps[0].secret.len() <= v@.len() && v@.subrange(
                    p1 as int,
                    p1 as int + 20 + ps[0].secret.len(),
                ) == enc_str(ps[0].secret)) by {
                    lemma_enc_u64_shape(ps[0].amount as nat);
                    lemma_enc_u64_shape(ps[0].secret.len());
                    assert(enc_proofs(ps) == enc_proof(ps.first()) + enc_proofs(ps.drop_first()));
                    let a = enc_proofs(ps);
                    lemma_subrange_within(v@, i as int, a, 20, 40 + ps[0].secret.len() as int);
                    assert(a.subrange(20, 40 + ps[0].secret.len() as int) =~= enc_str(ps[0].secret));
                }
            }
            match read_str(v, p1) {
                None => {
                    proof {
                        assert forall|ps: Seq<ProofV>|
                            (ps.len() == k && secrets_len_ok(ps) && i + enc_proofs(ps).len() <= v@.len()
                            && v@.subrange(i as int, i as int + enc_proofs(ps).len())
                            == enc_proofs(ps)) implies false by {
                            assert(hyp(ps));
                        }
                    }
                    None
                },
                Some((sec, p2)) => {
                    let pr = Proof { amount: amt, secret: sec };
                    let ghost mid = out@.push(pr);
                    out.push(pr);
                    proof {
                        assert forall|ps: Seq<ProofV>| #[trigger] hyp(ps) implies (ps.drop_first().len()
                            == k - 1 && secrets_len_ok(ps.drop_first()) && p2 + enc_proofs(
                            ps.drop_first(),
                        ).len() <= v@.len() && v@.subrange(
                            p2 as int,
                            p2 as int + enc_proofs(ps.drop_first()).len(),
                        ) == enc_proofs(ps.drop_first())) by {
                            lemma_enc_u64_shape(ps[0].amount as nat);
                            lemma_enc_u64_shape(ps[0].secret.len());
                            assert(enc_proofs(ps) == enc_proof(ps.first()) + enc_proofs(
                                ps.drop_first(),
                            ));
                            let a = enc_proofs(ps);
                            let off = enc_proof(ps.first()).len() as int;
                            lemma_subrange_within(v@, i as int, a, off, a.len() as int);
                            assert(a.subrange(off, a.len() as int) =~= enc_proofs(
                                ps.drop_first(),
                            ));
                            assert forall|t: int| 0 <= t < ps.drop_first().len() implies (
                            #[trigger] ps.drop_first()[t]).secret.len() <= u64::MAX by {
                                assert(ps.drop_first()[t] == ps[t + 1]);
                            }
                        }
                    }
                    match read_proofs(v, p2, k - 1, out) {
                        None => {
                            proof {
                                assert forall|ps: Seq<ProofV>|
                                    (ps.len() == k && secrets_len_ok(ps) && i + enc_proofs(ps).len() <= v@.len()
                            && v@.subrange(i as int, i as int + enc_proofs(ps).len())
                            == enc_proofs(ps)) implies false by {
                                    assert(hyp(ps));
                                }
                            }
                            None
                        },
                        Some(j) => {
                            proof {
                                // Soundness: the window read is the encoding
                                // of exactly the proofs appended.
                                let oldlen = old(out)@.len() as int;
                                let rest = proofs_view(out@).skip(oldlen + 1);
                                let ps_new = proofs_view(out@).skip(oldlen);
                                assert(out@[oldlen] == pr);
                                assert(ps_new.first() == pr@);
                                assert(ps_new.drop_first() =~= rest);
                                assert(pr@.amount == amt && pr@.secret == sec@);
                                lemma_enc_u64_shape(amt as nat);
                                lemma_enc_u64_shape(sec@.len());
                                assert(enc_proofs(ps_new) == enc_proof(pr@) + enc_proofs(rest));
                                assert(v@.subrange(i as int, j as int) =~= enc_proofs(ps_new)) by {
                                    assert(v@.subrange(i as int, i as int + 20) == enc_u64(
                                        amt as nat,
                                    ));
                                    assert(v@.subrange(p1 as int, p2 as int) == enc_str(sec@));
                                    assert(v@.subrange(p2 as int, j as int) == enc_proofs(rest));
                                    assert forall|q: int|
                                        0 <= q < j - i implies v@.subrange(i as int, j as int)[q]
                                        == enc_proofs(ps_new)[q] by {
                                        if q < 20 {
                                            assert(v@.subrange(i as int, i as int + 20)[q]
                                                == enc_u64(amt as nat)[q]);
                                        } else if q < 40 + sec@.len() {
                                            assert(v@.subrange(p1 as int, p2 as int)[q - 20]
                                                == enc_str(sec@)[q - 20]);
                                        } else {
                                            assert(v@.subrange(p2 as int, j as int)[q - 40
                                                - sec@.len()] == enc_proofs(rest)[q - 40
                                                - sec@.len()]);
                                        }
                                    }
                                }
                                assert forall|t: int|
                                    0 <= t < ps_new.len() implies (#[trigger] ps_new[t]).secret.len()
                                    <= u64::MAX by {
                                    if t > 0 {
                                        assert(ps_new[t] == rest[t - 1]);
                                    }
                                }
                                assert forall|ps: Seq<ProofV>|
                                    (ps.len() == k && secrets_len_ok(ps) && i + enc_proofs(ps).len() <= v@.len()
                            && v@.subrange(i as int, i as int + enc_proofs(ps).len())
                            == enc_proofs(ps)) implies (j == i
                                    + enc_proofs(ps).len() && proofs_view(out@) == proofs_view(
                                    old(out)@,
                                ) + ps) by {
                                    assert(hyp(ps));
                                    assert(ps.first() == ps[0]);
                                    lemma_enc_u64_shape(ps[0].amount as nat);
                                    lemma_enc_u64_shape(ps[0].secret.len());
                                    assert(enc_proofs(ps) == enc_proof(ps.first()) + enc_proofs(
                                        ps.drop_first(),
                                    ));
                                    assert(pr@ =~= ps[0]);
                                    assert(proofs_view(mid) =~= proofs_view(old(out)@).push(
                                        ps[0],
                                    ));
                                    assert(proofs_view(out@) == proofs_view(mid)
                                        + ps.drop_first());
                                    assert(proofs_view(old(out)@).push(ps[0]) + ps.drop_first()
                                        =~= proofs_view(old(out)@) + ps);
                                }
                            }
                            Some(j)
                        },
                    }
                },
            }
        },
    }
}


/// The payload of a well-formed wad splits into its five fields at fixed
/// offsets.
proof fn lemma_payload_decompose(v: Seq<char>, w: WadV)
    requires
        payload_wf(w),
        v == payload_of(w),
    ensures
        v.subrange(0, 20 + w.node_url.len() as int) == enc_str(w.node_url),
        v.subrange(
            20 + w.node_url.len() as int,
            40 + w.node_url.len() + spec_unit_symbol(w.unit).len() as int,
        ) == enc_str(spec_unit_symbol(w.unit)),
        v.subrange(
            40 + w.node_url.len() + spec_unit_symbol(w.unit).len() as int,
            40 + w.node_url.len() + spec_unit_symbol(w.unit).len() + enc_memo(w.memo).len() as int,
        ) == enc_memo(w.memo),
        v.subrange(
            40 + w.node_url.len() + spec_unit_symbol(w.unit).len() + enc_memo(w.memo).len() as int,
            60 + w.node_url.len() + spec_unit_symbol(w.unit).len() + enc_memo(w.memo).len() as int,
        ) == enc_u64(w.proofs.len()),
        v.subrange(
            60 + w.node_url.len() + spec_unit_symbol(w.unit).len() + enc_memo(w.memo).len() as int,
            v.len() as int,
        ) == enc_proofs(w.proofs),
        v.len() == 60 + w.node_url.len() + spec_unit_symbol(w.unit).len() + enc_memo(w.memo).len()
            + enc_proofs(w.proofs).len(),
{
    let a1 = enc_str(w.node_url);
    let a2 = enc_str(spec_unit_symbol(w.unit));
    let a3 = enc_memo(w.memo);
    let a4 = enc_u64(w.proofs.len());
    let a5 = enc_proofs(w.proofs);
    lemma_enc_u64_shape(w.node_url.len());
    lemma_enc_u64_shape(spec_unit_symbol(w.unit).len());
    lemma_enc_u64_shape(w.proofs.len());
    if w.memo is Some {
        lemma_enc_u64_shape(w.memo->Some_0.len());
    }
    assert(v.subrange(0, a1.len() as int) =~= a1);
    assert(v.subrange(a1.len() as int, a1.len() + a2.len() as int) =~= a2);
    assert(v.subrange(a1.len() + a2.len() as int, a1.len() + a2.len() + a3.len() as int) =~= a3);
    assert(v.subrange(
        a1.len() + a2.len() + a3.len() as int,
        a1.len() + a2.len() + a3.len() + a4.len() as int,
    ) =~= a4);
    assert(v.subrange(a1.len() + a2.len() + a3.len() + a4.len() as int, v.len() as int) =~= a5);
}

/// Decodes one payload back into a wad. Whenever the input is the payload of
/// a well-formed wad, that wad comes back exactly.
#[verifier::rlimit(60)]
fn decode_payload(v: &Vec<char>) -> (r: Option<Wad>)
    ensures
        r matches Some(x) ==> unit_canonical(x@.unit) && payload_wf(x@) && v@ == payload_of(x@),
        forall|w: WadV| (payload_wf(w) && v@ == payload_of(w)) ==> (r matches Some(x) && x@ == w),
{
    proof {
        assert forall|w: WadV| (payload_wf(w) && v@ == payload_of(w)) implies (w.node_url.len()
            <= u64::MAX && 0 + 20 + w.node_url.len() <= v@.len() && v@.subrange(
            0,
            0 + 20 + w.node_url.len() as int,
        ) == enc_str(w.node_url)) by {
            lemma_payload_decompose(v@, w);
        }
    }
    let r1 = read_str(v, 0);
    let (url, p1) = match r1 {
        None => {
            proof {
                assert forall|w: WadV| (payload_wf(w) && v@ == payload_of(w)) implies false by {
                    lemma_payload_decompose(v@, w);
                }
            }
            return None;
        },
        Some(x) => x,
    };
    proof {
        assert forall|w: WadV| (payload_wf(w) && v@ == payload_of(w)) implies (spec_unit_symbol(
            w.unit,
        ).len() <= u64::MAX && p1 + 20 + spec_unit_symbol(w.unit).len() <= v@.len() && v@.subrange(
            p1 as int,
            p1 as int + 20 + spec_unit_symbol(w.unit).len(),
        ) == enc_str(spec_unit_symbol(w.unit))) by {
            lemma_payload_decompose(v@, w);
        }
    }
    let r2 = read_str(v, p1);
    let (sym, p2) = match r2 {
        None => {
            proof {
                assert forall|w: WadV| (payload_wf(w) && v@ == payload_of(w)) implies false by {
                    lemma_payload_decompose(v@, w);
                }
            }
            return None;
        },
        Some(x) => x,
    };
    proof {
        assert forall|w: WadV| (payload_wf(w) && v@ == payload_of(w)) implies ((w.memo matches Some(
            m,
        ) ==> m.len() <= u64::MAX) && p2 + enc_memo(w.memo).len() <= v@.len() && v@.subrange(
            p2 as int,
            p2 as int + enc_memo(w.memo).len(),
        ) == enc_memo(w.memo)) by {
            lemma_payload_decompose(v@, w);
        }
    }
    let r3 = read_memo(v, p2);
    let (memo, p3) = match r3 {
        None => {
            proof {
                assert forall|w: WadV| (payload_wf(w) && v@ == payload_of(w)) implies false by {
                    lemma_payload_decompose(v@, w);
                }
            }
            return None;
        },
        Some(x) => x,
    };
    proof {
        assert forall|w: WadV| (payload_wf(w) && v@ == payload_of(w)) implies (p3 + 20 <= v@.len()
            && v@.subrange(p3 as int, p3 as int + 20) == enc_u64(w.proofs.len())) by {
            lemma_payload_decompose(v@, w);
        }
    }
    let r4 = read_u64(v, p3);
    let (cnt, p4) = match r4 {
        None => {
            proof {
                assert forall|w: WadV| (payload_wf(w) && v@ == payload_of(w)) implies false by {
                    lemma_payload_decompose(v@, w);
                }
            }
            return None;
        },
        Some(x) => x,
    };
    proof {
        assert forall|w: WadV| (payload_wf(w) && v@ == payload_of(w)) implies (w.proofs.len()
            == cnt && secrets_len_ok(w.proofs) && p4 + enc_proofs(w.proofs).len() <= v@.len()
            && v@.subrange(p4 as int, p4 as int + enc_proofs(w.proofs).len()) == enc_proofs(
            w.proofs,
        )) by {
            lemma_payload_decompose(v@, w);
        }
    }
    let mut prf: Vec<Proof> = Vec::new();
    let r5 = read_proofs(v, p4, cnt, &mut prf);
    let p5 = match r5 {
        None => {
            proof {
                assert forall|w: WadV| (payload_wf(w) && v@ == payload_of(w)) implies false by {
                    lemma_payload_decompose(v@, w);
                }
            }
            return None;
        },
        Some(x) => x,
    };
    if p5 != v.len() {
        proof {
            assert forall|w: WadV| (payload_wf(w) && v@ == payload_of(w)) implies false by {
                lemma_payload_decompose(v@, w);
            }
        }
        return None;
    }
    let unit = Unit::from_symbol(sym.as_str());
    let x = Wad { node_url: url, unit, memo, proofs: prf };
    proof {
        // Soundness: the input is the payload of the wad read from it.
        crate::balances::lemma_unit_of_symbol_round_trip(sym@);
        let mv = opt_str_view(x.memo);
        lemma_enc_u64_shape(url@.len());
        lemma_enc_u64_shape(sym@.len());
        assert(proofs_view(prf@).skip(0) =~= proofs_view(prf@));
        assert(x@.proofs == proofs_view(prf@));
        assert(x@.proofs.len() == cnt as nat);
        assert(spec_unit_symbol(x@.unit) == sym@);
        let a1 = enc_str(url@);
        let a2 = enc_str(sym@);
        let a3 = enc_memo(mv);
        let a4 = enc_u64(cnt as nat);
        let a5 = enc_proofs(proofs_view(prf@));
        assert(payload_of(x@) == a1 + a2 + a3 + a4 + a5);
        assert(v@.subrange(0, p1 as int) == a1);
        assert(v@.subrange(p1 as int, p2 as int) == a2);
        assert(v@.subrange(p2 as int, p3 as int) == a3);
        assert(v@.subrange(p3 as int, p4 as int) == a4);
        assert(v@.subrange(p4 as int, p5 as int) == a5);
        assert(p5 == v@.len());
        assert(v@ =~= payload_of(x@)) by {
            assert forall|q: int| 0 <= q < v@.len() implies v@[q] == payload_of(x@)[q] by {
                if q < p1 {
                    assert(v@.subrange(0, p1 as int)[q] == a1[q]);
                } else if q < p2 {
                    assert(v@.subrange(p1 as int, p2 as int)[q - p1] == a2[q - p1]);
                } else if q < p3 {
                    assert(v@.subrange(p2 as int, p3 as int)[q - p2] == a3[q - p2]);
                } else if q < p4 {
                    assert(v@.subrange(p3 as int, p4 as int)[q - p3] == a4[q - p3]);
                } else {
                    assert(v@.subrange(p4 as int, p5 as int)[q - p4] == a5[q - p4]);
                }
            }
        }
        assert(payload_wf(x@)) by {
            assert forall|t: int|
                0 <= t < x@.proofs.len() implies (#[trigger] x@.proofs[t]).secret.len()
                <= u64::MAX by {
                assert(x@.proofs[t] == proofs_view(prf@).skip(0)[t]);
            }
        }
        assert forall|w: WadV| (payload_wf(w) && v@ == payload_of(w)) implies x@ == w by {
            lemma_payload_decompose(v@, w);
            crate::balances::lemma_unit_symbol_round_trip(w.unit);
            assert(proofs_view(x.proofs@) =~= proofs_view(Seq::<Proof>::empty()) + w.proofs);
            assert(proofs_view(Seq::<Proof>::empty()) + w.proofs =~= w.proofs);
            assert(x@ =~= w);
        }
    }
    Some(x)
}

/// Parses one colon-separated bundle segment: the fixed tag, then the
/// base64-encoded payload. The segment of any well-formed wad parses back to
/// exactly that wad, and a successful parse returns a wad whose segment the
/// input is: anything else is rejected.
fn parse_one_segment(seg: &Vec<char>) -> (r: Option<Wad>)
    ensures
        r matches Some(x) ==> unit_canonical(x@.unit) && payload_wf(x@) && seg@ == seg_of(x@),
        forall|w: WadV| (payload_wf(w) && seg@ == seg_of(w)) ==> (r matches Some(x) && x@ == w),
{
    proof {
        reveal_strlit("cashuB");
        assert forall|w: WadV| (payload_wf(w) && seg@ == seg_of(w)) implies (seg@.len() >= 6
            && seg@[0] == 'c' && seg@[1] == 'a' && seg@[2] == 's' && seg@[3] == 'h' && seg@[4]
            == 'u' && seg@[5] == 'B' && seg@.subrange(6, seg@.len() as int) == b64_of(
            payload_of(w),
        )) by {
            assert(seg@.subrange(6, seg@.len() as int) =~= b64_of(payload_of(w)));
        }
    }
    if seg.len() < 6 {
        return None;
    }
    if !(seg[0] == 'c' && seg[1] == 'a' && seg[2] == 's' && seg[3] == 'h' && seg[4] == 'u'
        && seg[5] == 'B') {
        return None;
    }
    let body = copy_range(seg, 6, seg.len());
    let bs = string_from_chars(&body);
    let r1 = b64_decode(bs.as_str());
    let payload = match r1 {
        None => {
            proof {
                assert forall|w: WadV| (payload_wf(w) && seg@ == seg_of(w)) implies false by {}
            }
            return None;
        },
        Some(x) => x,
    };
    let pv = chars_vec(payload.as_str());
    let r2 = decode_payload(&pv);
    proof {
        assert forall|w: WadV| (payload_wf(w) && seg@ == seg_of(w)) implies (r2 matches Some(x)
            && x@ == w) by {
            assert(bs@ == b64_of(payload_of(w)));
            assert(pv@ == payload_of(w));
        }
        // Soundness: the segment is the wire form of the wad read from it.
        if r2 is Some {
            let x = r2->Some_0;
            assert(pv@ == payload_of(x@));
            assert(bs@ == b64_of(payload_of(x@)));
            assert(body@ == seg@.subrange(6, seg@.len() as int));
            assert(seg@ =~= seg_of(x@)) by {
                assert forall|q: int| 0 <= q < seg@.len() implies seg@[q] == seg_of(x@)[q] by {
                    if q >= 6 {
                        assert(seg@.subrange(6, seg@.len() as int)[q - 6] == b64_of(
                            payload_of(x@),
                        )[q - 6]);
                    }
                }
            }
        }
    }
    r2
}

/// The colon-join of the segments of a non-empty wad list is at least as
/// long as its first segment, which starts it.
proof fn lemma_join_first(ss: Seq<Seq<char>>)
    requires
        ss.len() >= 1,
    ensures
        join_segs(ss).len() >= ss.first().len(),
        forall|j: int|
            0 <= j < ss.first().len() ==> join_segs(ss)[j] == #[trigger] ss.first()[j],
        ss.len() >= 2 ==> join_segs(ss).len() > ss.first().len() && join_segs(
            ss,
        )[ss.first().len() as int] == ':' && join_segs(ss).subrange(
            ss.first().len() + 1 as int,
            join_segs(ss).len() as int,
        ) == join_segs(ss.drop_first()),
{
    if ss.len() >= 2 {
        assert(join_segs(ss) == ss.first() + seq![':'] + join_segs(ss.drop_first()));
        assert(join_segs(ss).subrange(ss.first().len() + 1 as int, join_segs(ss).len() as int)
            =~= join_segs(ss.drop_first()));
    }
}

/// Parses a bundle: the empty string is the empty bundle, and otherwise each
/// colon-separated segment is one wad. Whatever list of well-formed wads the
/// input is the wire form of comes back exactly, in order; and a successful
/// parse returns a list whose wire form the input is, so anything else is
/// rejected.
fn parse_segments(v: &Vec<char>) -> (r: Option<Vec<Wad>>)
    ensures
        r matches Some(x) ==> forall|t: int|
            0 <= t < x@.len() ==> unit_canonical((#[trigger] x@[t])@.unit),
        r matches Some(x) ==> bundle_encodes(v@, wads_view(x@)),
        r matches Some(x) ==> (x@.len() == 0 <==> v@.len() == 0),
        forall|wl: Seq<WadV>| bundle_encodes(v@, wl) ==> (r matches Some(x) && wads_view(x@)
            == wl),
    decreases v@.len(),
{
    let ghost segs_fn = |wl: Seq<WadV>| wl.map_values(|w: WadV| seg_of(w));
    proof {
        reveal_strlit("cashuB");
        assert forall|wl: Seq<WadV>| bundle_encodes(v@, wl) && wl.len() >= 1 implies (colon_free(
            segs_fn(wl).first(),
        ) && segs_fn(wl).first().len() >= 6 && segs_fn(wl).first() == seg_of(wl[0])) by {
            assert(segs_fn(wl)[0] == seg_of(wl[0]));
            assert(colon_free(b64_of(payload_of(wl[0]))));
            assert forall|j: int| 0 <= j < seg_of(wl[0]).len() implies #[trigger] seg_of(
                wl[0],
            )[j] != ':' by {
                if j >= 6 {
                    assert(seg_of(wl[0])[j] == b64_of(payload_of(wl[0]))[j - 6]);
                }
            }
        }
    }
    let n = v.len();
    if n == 0 {
        let empty: Vec<Wad> = Vec::new();
        proof {
            assert forall|wl: Seq<WadV>| bundle_encodes(v@, wl) implies wads_view(empty@) == wl by {
                if wl.len() >= 1 {
                    lemma_join_first(segs_fn(wl));
                    assert(segs_fn(wl).len() == wl.len());
                }
                assert(wads_view(empty@) =~= wl);
            }
            assert(wads_view(empty@) =~= Seq::<WadV>::empty());
            assert(wads_view(empty@).map_values(|w: WadV| seg_of(w)) =~= Seq::<Seq<char>>::empty());
            assert(v@ =~= Seq::<char>::empty());
            assert(bundle_encodes(v@, wads_view(empty@)));
        }
        return Some(empty);
    }
    // Find the first colon, if any.
    let mut p: usize = n;
    let mut j: usize = 0;
    while j < n
        invariant
            n == v@.len(),
            j <= n,
            p <= n,
            p == n ==> forall|t: int| 0 <= t < j ==> v@[t] != ':',
            p < n ==> v@[p as int] == ':' && (forall|t: int| 0 <= t < p ==> v@[t] != ':'),
        decreases n - j,
    {
        if p == n && v[j] == ':' {
            p = j;
        }
        j += 1;
    }
    proof {
        assert forall|wl: Seq<WadV>| bundle_encodes(v@, wl) implies wl.len() >= 1 by {
            if wl.len() == 0 {
                assert(v@ == join_segs(segs_fn(wl)));
                assert(segs_fn(wl).len() == 0);
            }
        }
    }
    if p == n {
        // No separator: the whole input is one segment.
        proof {
            assert forall|wl: Seq<WadV>| bundle_encodes(v@, wl) implies (wl.len() == 1
                && payload_wf(wl[0]) && v@ == seg_of(wl[0])) by {
                lemma_join_first(segs_fn(wl));
                assert(segs_fn(wl).len() == wl.len());
                if wl.len() >= 2 {
                    assert(v@[segs_fn(wl).first().len() as int] == ':');
                }
                assert(v@ =~= segs_fn(wl).first());
            }
        }
        let r1 = parse_one_segment(v);
        match r1 {
            None => {
                proof {
                    assert forall|wl: Seq<WadV>| bundle_encodes(v@, wl) implies false by {}
                }
                None
            },
            Some(x0) => {
                let mut res: Vec<Wad> = Vec::new();
                res.push(x0);
                proof {
                    assert forall|wl: Seq<WadV>| bundle_encodes(v@, wl) implies wads_view(res@)
                        == wl by {
                        assert(wads_view(res@) =~= wl);
                    }
                    // Soundness: the whole input is this wad's segment.
                    let wl2 = wads_view(res@);
                    assert(wl2.len() == 1);
                    assert(wl2[0] == x0@);
                    let segs2 = wl2.map_values(|w: WadV| seg_of(w));
                    assert(segs2.len() == 1);
                    assert(segs2[0] == seg_of(x0@));
                    assert(segs2.first() == seg_of(x0@));
                    assert(v@ == join_segs(segs2));
                    assert forall|k: int| 0 <= k < wl2.len() implies colon_free(
                        b64_of(payload_of(#[trigger] wl2[k])),
                    ) by {
                        assert forall|q2: int|
                            0 <= q2 < b64_of(payload_of(x0@)).len() implies #[trigger] b64_of(
                            payload_of(x0@),
                        )[q2] != ':' by {
                            assert(seg_of(x0@)[6 + q2] == b64_of(payload_of(x0@))[q2]);
                            assert(v@[6 + q2] == seg_of(x0@)[6 + q2]);
                            assert(v@[6 + q2] != ':');
                        }
                    }
                    assert(bundle_encodes(v@, wl2));
                }
                Some(res)
            },
        }
    } else {
        // The first segment runs up to the separator; the rest is a bundle.
        proof {
            assert forall|wl: Seq<WadV>| bundle_encodes(v@, wl) implies (wl.len() >= 2
                && payload_wf(wl[0]) && p == segs_fn(wl).first().len() && v@.subrange(
                0,
                p as int,
            ) == seg_of(wl[0]) && bundle_encodes(
                v@.subrange(p + 1, n as int),
                wl.drop_first(),
            )) by {
                lemma_join_first(segs_fn(wl));
                assert(segs_fn(wl).len() == wl.len());
                if wl.len() == 1 {
                    assert(v@ == segs_fn(wl).first());
                    assert(v@[p as int] != ':');
                }
                let f = segs_fn(wl).first();
                assert(f.len() <= p || f.len() >= p) by {};
                if (f.len() as int) < p as int {
                    assert(v@[f.len() as int] == ':');
                }
                if (f.len() as int) > p as int {
                    assert(v@[p as int] == f[p as int]);
                }
                assert(p == f.len());
                assert(v@.subrange(0, p as int) =~= f);
                assert(segs_fn(wl)[0] == seg_of(wl[0]));
                assert(v@.subrange(p + 1, n as int) == join_segs(segs_fn(wl).drop_first()));
                assert(segs_fn(wl.drop_first()) =~= segs_fn(wl).drop_first());
                assert forall|t: int| 0 <= t < wl.drop_first().len() implies payload_wf(
                    #[trigger] wl.drop_first()[t],
                ) && colon_free(b64_of(payload_of(wl.drop_first()[t]))) by {
                    assert(wl.drop_first()[t] == wl[t + 1]);
                }
            }
        }
        if p + 1 == n {
            // A separator with nothing after it frames no bundle.
            proof {
                assert forall|wl: Seq<WadV>| bundle_encodes(v@, wl) implies false by {
                    assert(bundle_encodes(v@.subrange(p + 1, n as int), wl.drop_first()));
                    let sf = segs_fn(wl.drop_first());
                    assert(sf.len() == wl.drop_first().len());
                    lemma_join_first(sf);
                    assert(sf.first() == seg_of(wl.drop_first()[0]));
                    assert(v@.subrange(p + 1, n as int) == join_segs(sf));
                    assert(v@.subrange(p + 1, n as int).len() == 0);
                }
            }
            return None;
        }
        let seg = copy_range(v, 0, p);
        let r1 = parse_one_segment(&seg);
        let x0 = match r1 {
            None => {
                proof {
                    assert forall|wl: Seq<WadV>| bundle_encodes(v@, wl) implies false by {}
                }
                return None;
            },
            Some(x) => x,
        };
        let rest = copy_range(v, p + 1, n);
        let r2 = parse_segments(&rest);
        match r2 {
            None => {
                proof {
                    assert forall|wl: Seq<WadV>| bundle_encodes(v@, wl) implies false by {}
                }
                None
            },
            Some(mut rw) => {
                let ghost rwv = rw@;
                let mut res: Vec<Wad> = Vec::new();
                res.push(x0);
                res.append(&mut rw);
                proof {
                    assert forall|wl: Seq<WadV>| bundle_encodes(v@, wl) implies wads_view(res@)
                        == wl by {
                        assert(wads_view(rwv) == wl.drop_first());
                        assert forall|t: int| 0 <= t < wl.len() implies wads_view(res@)[t] == wl[t]
                            by {
                            if t >= 1 {
                                assert(res@[t] == rwv[t - 1]);
                                assert(wads_view(rwv)[t - 1] == wl.drop_first()[t - 1]);
                            }
                        }
                        assert(wads_view(res@) =~= wl);
                    }
                    assert forall|t: int| 0 <= t < res@.len() implies unit_canonical(
                        (#[trigger] res@[t])@.unit,
                    ) by {
                        if t >= 1 {
                            assert(res@[t] == rwv[t - 1]);
                        }
                    }
                    // Soundness: the input is this segment, the separator,
                    // then the wire form of the remaining wads.
                    let wl2 = wads_view(res@);
                    let wr = wads_view(rwv);
                    assert(bundle_encodes(rest@, wr));
                    assert(rest@ == v@.subrange(p + 1, n as int));
                    assert(rest@.len() > 0);
                    assert(wr.len() >= 1);
                    assert(wl2.len() == 1 + wr.len());
                    assert(wl2[0] == x0@);
                    assert forall|t: int| 1 <= t < wl2.len() implies #[trigger] wl2[t] == wr[t
                        - 1] by {
                        assert(res@[t] == rwv[t - 1]);
                    }
                    let segs2 = wl2.map_values(|w: WadV| seg_of(w));
                    assert(segs2.first() == seg_of(x0@));
                    assert(segs2.drop_first() =~= wr.map_values(|w: WadV| seg_of(w))) by {
                        let sd = segs2.drop_first();
                        assert forall|t: int|
                            0 <= t < sd.len() implies #[trigger] sd[t] == wr.map_values(
                            |w: WadV| seg_of(w),
                        )[t] by {
                            assert(segs2[t + 1] == seg_of(wl2[t + 1]));
                        }
                    }
                    assert(segs2.len() >= 2);
                    assert(join_segs(segs2) == segs2.first() + seq![':'] + join_segs(
                        segs2.drop_first(),
                    ));
                    assert(seg@ == v@.subrange(0, p as int));
                    assert(seg@ == seg_of(x0@));
                    assert(v@.subrange(p + 1, n as int) == join_segs(segs2.drop_first()));
                    assert(v@ =~= join_segs(segs2)) by {
                        assert forall|q: int| 0 <= q < v@.len() implies v@[q] == join_segs(
                            segs2,
                        )[q] by {
                            if q < p {
                                assert(v@.subrange(0, p as int)[q] == seg_of(x0@)[q]);
                            } else if q > p {
                                assert(v@.subrange(p + 1, n as int)[q - p - 1] == join_segs(
                                    segs2.drop_first(),
                                )[q - p - 1]);
                            }
                        }
                    }
                    assert forall|k: int| 0 <= k < wl2.len() implies payload_wf(
                        #[trigger] wl2[k],
                    ) by {
                        if k >= 1 {
                            assert(wl2[k] == wr[k - 1]);
                        }
                    }
                    assert forall|k: int| 0 <= k < wl2.len() implies colon_free(
                        b64_of(payload_of(#[trigger] wl2[k])),
                    ) by {
                        if k == 0 {
                            assert forall|q2: int|
                                0 <= q2 < b64_of(payload_of(x0@)).len() implies #[trigger] b64_of(
                                payload_of(x0@),
                            )[q2] != ':' by {
                                assert(seg_of(x0@)[6 + q2] == b64_of(payload_of(x0@))[q2]);
                                assert(seg@[6 + q2] == v@.subrange(0, p as int)[6 + q2]);
                                assert(v@[6 + q2] != ':');
                            }
                        } else {
                            assert(wl2[k] == wr[k - 1]);
                        }
                    }
                    assert(bundle_encodes(v@, wl2));
                }
                Some(res)
            },
        }
    }
}

/// Law: the empty string is the well-formed empty bundle, so receiving it
/// yields no wads and no receipts.
pub proof fn lemma_empty_bundle()
    ensures
        bundle_encodes(Seq::<char>::empty(), Seq::<WadV>::empty()),
{
    assert(Seq::<WadV>::empty().map_values(|w: WadV| seg_of(w)) =~= Seq::<Seq<char>>::empty());
}

/// Parses a caller-supplied bundle string into its wads. Together with
/// `serialize_wads` this is the round trip: a serialized list of well-formed
/// wads always parses back to an equivalent list, wad for wad, in order.
/// Conversely, a successful parse returns a list whose wire form the input
/// is: a string that encodes no wad list is rejected.
pub fn parse_wads(s: &str) -> (r: Option<Vec<Wad>>)
    ensures
        r matches Some(x) ==> forall|t: int|
            0 <= t < x@.len() ==> unit_canonical((#[trigger] x@[t])@.unit),
        r matches Some(x) ==> bundle_encodes(s@, wads_view(x@)),
        forall|wl: Seq<WadV>| bundle_encodes(s@, wl) ==> (r matches Some(x) && wads_view(x@)
            == wl),
{
    let v = chars_vec(s);
    parse_segments(&v)
}


} // verus!
