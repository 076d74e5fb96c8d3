//! The guarantees of the codec, stated and proved once and for all: the
//! decoder inverts the encoder on every byte sequence, the two tables stay in
//! lock step through generation resets, codes below 256 always mean their
//! single byte, and new codes are assigned in strictly increasing order.

use vstd::prelude::*;

use crate::codec::code_of;
use crate::codec::dec_run;
use crate::codec::decode_final_table;
use crate::codec::decode_spec;
use crate::codec::enc_run;
use crate::codec::encode_final_table;
use crate::codec::encode_spec;
use crate::table::MAX_CODE;
use crate::table::entry_at;
use crate::table::find_from;
use crate::table::lookup_spec;
use crate::table::push_tbl;
use crate::table::wf_table;
use crate::wire::codes_of_le_bytes;
use crate::wire::le_bytes_of_codes;
use vstd::arithmetic::div_mod::lemma_fundamental_div_mod;

verus! {

/// `find_from` really is the first match at or after `k`.
pub proof fn lemma_find_from_props(t: Seq<Seq<u8>>, s: Seq<u8>, k: int)
    requires
        0 <= k,
    ensures
        match find_from(t, s, k) {
            Some(j) => k <= j < t.len() && t[j] == s && forall|m: int|
                k <= m < j ==> (#[trigger] t[m]) != s,
            None => forall|m: int| k <= m < t.len() ==> (#[trigger] t[m]) != s,
        },
    decreases t.len() - k,
{
    if 0 <= k < t.len() && t[k] != s {
        lemma_find_from_props(t, s, k + 1);
    }
}

/// Appending one entry leaves every earlier match in place; a sequence absent
/// before is found exactly when it is the appended entry.
pub proof fn lemma_find_from_push(t: Seq<Seq<u8>>, e: Seq<u8>, s: Seq<u8>, k: int)
    requires
        0 <= k <= t.len(),
    ensures
        find_from(t.push(e), s, k) == (match find_from(t, s, k) {
            Some(j) => Some(j),
            None => if e == s {
                Some(t.len() as int)
            } else {
                None
            },
        }),
    decreases t.len() - k,
{
    let tp = t.push(e);
    assert(tp.len() == t.len() + 1);
    if k < t.len() {
        assert(tp[k] == t[k]);
        if t[k] != s {
            lemma_find_from_push(t, e, s, k + 1);
        }
    } else {
        assert(tp[k] == e);
        assert(find_from(t, s, k) is None);
        if e != s {
            assert(find_from(tp, s, k + 1) is None);
        }
    }
}

/// `push_tbl` preserves table well-formedness for multi-byte entries.
pub proof fn lemma_push_tbl_wf(t: Seq<Seq<u8>>, e: Seq<u8>)
    requires
        wf_table(t),
        e.len() >= 2,
    ensures
        wf_table(push_tbl(t, e)),
{
    let tp = push_tbl(t, e);
    if 256 + t.len() + 1 >= MAX_CODE as int {
        assert(tp =~= Seq::<Seq<u8>>::empty());
    } else {
        assert forall|i: int| 0 <= i < tp.len() implies (#[trigger] tp[i]).len() >= 2 by {
            if i < t.len() {
                assert(tp[i] == t[i]);
            } else {
                assert(tp[i] == e);
            }
        }
    }
}

/// The synchronization invariant between a running encoder and the decoder
/// that has consumed every code emitted so far.
///
/// Before the first emission both tables are the fresh generation 0 and the
/// decoder has no previous string.  Afterwards the encoder's table is exactly
/// the decoder's table plus the one entry the decoder has not derived yet:
/// the previously emitted sequence extended by the first byte of the current
/// working string (with the shared generation-reset rule applied).  That
/// pending entry is the only sequence the encoder may reference that the
/// decoder cannot yet resolve.
pub open spec fn sim_rel(t_e: Seq<Seq<u8>>, cur: Seq<u8>, t_d: Seq<Seq<u8>>, prev: Seq<u8>) -> bool {
    &&& wf_table(t_e)
    &&& wf_table(t_d)
    &&& cur.len() >= 1
    &&& lookup_spec(t_e, cur) is Some
    &&& if prev.len() == 0 {
        t_e == t_d && t_e.len() == 0
    } else {
        t_e == push_tbl(t_d, prev.push(cur[0])) && lookup_spec(t_d, prev.push(cur[0])) is None
    }
}

/// How the decoder resolves the code the encoder emits for its working
/// string: either the code already denotes that very sequence in the
/// decoder's table, or it is exactly the next free code — the one-step-behind
/// race — and the synthesized entry `prev + prev[0]` is again that sequence.
pub proof fn lemma_resolve(t_e: Seq<Seq<u8>>, cur: Seq<u8>, t_d: Seq<Seq<u8>>, prev: Seq<u8>)
    requires
        sim_rel(t_e, cur, t_d, prev),
    ensures
        ({
            let c = code_of(t_e, cur) as int;
            &&& 0 <= c <= 256 + t_d.len()
            &&& c < 256 + t_d.len() ==> entry_at(t_d, c) == cur
            &&& c == 256 + t_d.len() ==> prev.len() >= 1 && cur == prev.push(prev[0])
                && lookup_spec(t_d, prev.push(prev[0])) is None
        }),
{
    let c = code_of(t_e, cur) as int;
    if cur.len() == 1 {
        assert(c == cur[0] as int);
        assert(entry_at(t_d, c) =~= cur);
    } else {
        lemma_find_from_props(t_e, cur, 0);
        let j = find_from(t_e, cur, 0)->Some_0;
        assert(j < t_e.len());
        assert(c == 256 + j);
        if prev.len() == 0 {
            assert(t_e.len() == 0);
            assert(false);
        } else {
            let e = prev.push(cur[0]);
            if 256 + t_d.len() + 1 >= MAX_CODE as int {
                assert(t_e =~= Seq::<Seq<u8>>::empty());
                assert(false);
            } else {
                assert(t_e == t_d.push(e));
                lemma_find_from_push(t_d, e, cur, 0);
                lemma_find_from_props(t_d, cur, 0);
                if find_from(t_d, cur, 0) is Some {
                    assert(j == find_from(t_d, cur, 0)->Some_0);
                    assert(t_d[j] == cur);
                    assert(entry_at(t_d, c) == cur);
                } else {
                    assert(e == cur);
                    assert(j == t_d.len());
                    assert(cur[0] == prev[0]);
                    assert(prev.push(prev[0]) == e);
                }
            }
        }
    }
}

/// The decoder, run on exactly the codes the encoder emits from a
/// synchronized state, reproduces the working string followed by the
/// remaining input, and finishes with the encoder's final table.
pub proof fn lemma_sim(rest: Seq<u8>, t_e: Seq<Seq<u8>>, cur: Seq<u8>, t_d: Seq<Seq<u8>>, prev: Seq<u8>)
    requires
        sim_rel(t_e, cur, t_d, prev),
    ensures
        ({
            let r = enc_run(rest, t_e, cur);
            dec_run(r.0, t_d, prev) == Some((cur + rest, r.1))
        }),
    decreases rest.len(),
{
    let r = enc_run(rest, t_e, cur);
    let c = code_of(t_e, cur);
    lemma_resolve(t_e, cur, t_d, prev);
    if rest.len() == 0 {
        assert(r.0 =~= seq![c]);
        assert(r.1 == t_e);
        assert(seq![c].skip(1) =~= Seq::<u16>::empty());
        if (c as int) < 256 + t_d.len() {
            let s = entry_at(t_d, c as int);
            assert(s == cur);
            let t2 = if prev.len() > 0 && lookup_spec(t_d, prev.push(s[0])) is None {
                push_tbl(t_d, prev.push(s[0]))
            } else {
                t_d
            };
            assert(t2 == t_e);
            assert(dec_run(Seq::<u16>::empty(), t2, s) == Some((Seq::<u8>::empty(), t2)));
            assert(cur + Seq::<u8>::empty() =~= cur + rest);
        } else {
            let s = prev.push(prev[0]);
            assert(s == cur);
            assert(push_tbl(t_d, s) == t_e);
            assert(dec_run(Seq::<u16>::empty(), t_e, s) == Some((Seq::<u8>::empty(), t_e)));
            assert(cur + Seq::<u8>::empty() =~= cur + rest);
        }
    } else {
        let b = rest[0];
        let cand = cur.push(b);
        if lookup_spec(t_e, cand) is Some {
            if prev.len() == 0 {
                assert(t_e.len() == 0);
                assert(find_from(t_e, cand, 0) is None);
                assert(false);
            }
            assert(cand[0] == cur[0]);
            assert(sim_rel(t_e, cand, t_d, prev));
            lemma_sim(rest.skip(1), t_e, cand, t_d, prev);
            assert(cand + rest.skip(1) =~= cur + rest);
        } else {
            let tp = push_tbl(t_e, cand);
            let rr = enc_run(rest.skip(1), tp, seq![b]);
            assert(r.0 == seq![c] + rr.0);
            assert(r.1 == rr.1);
            assert(r.0[0] == c);
            assert(r.0.skip(1) =~= rr.0);
            lemma_push_tbl_wf(t_e, cand);
            assert(sim_rel(tp, seq![b], t_e, cur)) by {
                assert(cur.push(seq![b][0]) == cand);
            }
            lemma_sim(rest.skip(1), tp, seq![b], t_e, cur);
            assert(dec_run(rr.0, t_e, cur) == Some((seq![b] + rest.skip(1), rr.1)));
            if (c as int) < 256 + t_d.len() {
                let s = entry_at(t_d, c as int);
                assert(s == cur);
                let t2 = if prev.len() > 0 && lookup_spec(t_d, prev.push(s[0])) is None {
                    push_tbl(t_d, prev.push(s[0]))
                } else {
                    t_d
                };
                assert(t2 == t_e);
                assert(dec_run(r.0, t_d, prev) == Some((cur + (seq![b] + rest.skip(1)), rr.1)));
            } else {
                let s = prev.push(prev[0]);
                assert(s == cur);
                assert(push_tbl(t_d, s) == t_e);
                assert(dec_run(r.0, t_d, prev) == Some((cur + (seq![b] + rest.skip(1)), rr.1)));
            }
            assert(cur + (seq![b] + rest.skip(1)) =~= cur + rest);
        }
    }
}

/// Round-trip at the code level: decoding what the encoder emitted for any
/// finite byte sequence, the empty one included, yields that sequence again.
pub proof fn lemma_round_trip(input: Seq<u8>)
    ensures
        decode_spec(encode_spec(input)) == Some(input),
{
    if input.len() == 0 {
        assert(dec_run(Seq::<u16>::empty(), Seq::<Seq<u8>>::empty(), Seq::<u8>::empty())
            == Some((Seq::<u8>::empty(), Seq::<Seq<u8>>::empty())));
        assert(Seq::<u8>::empty() =~= input);
    } else {
        let cur0 = seq![input[0]];
        assert(sim_rel(Seq::<Seq<u8>>::empty(), cur0, Seq::<Seq<u8>>::empty(), Seq::<u8>::empty()));
        lemma_sim(input.skip(1), Seq::<Seq<u8>>::empty(), cur0, Seq::<Seq<u8>>::empty(), Seq::<u8>::empty());
        assert(cur0 + input.skip(1) =~= input);
    }
}

/// Determinism: encoding is a function of the input bytes alone, so equal
/// inputs yield byte-identical code streams.
pub proof fn lemma_encode_deterministic(a: Seq<u8>, b: Seq<u8>)
    requires
        a == b,
    ensures
        encode_spec(a) == encode_spec(b),
{
}

/// Every code the encoder emits stays below the 16-bit ceiling.
pub proof fn lemma_enc_run_code_range(rest: Seq<u8>, t: Seq<Seq<u8>>, cur: Seq<u8>)
    requires
        wf_table(t),
        cur.len() >= 1,
        lookup_spec(t, cur) is Some,
    ensures
        forall|k: int|
            0 <= k < enc_run(rest, t, cur).0.len() ==> (#[trigger] enc_run(rest, t, cur).0[k])
                < MAX_CODE,
    decreases rest.len(),
{
    let c = code_of(t, cur);
    if cur.len() == 1 {
        assert(c < 256);
    } else {
        lemma_find_from_props(t, cur, 0);
        assert(c < MAX_CODE);
    }
    if rest.len() == 0 {
        assert(enc_run(rest, t, cur).0 =~= seq![c]);
        assert(forall|k: int|
            0 <= k < enc_run(rest, t, cur).0.len() ==> (#[trigger] enc_run(rest, t, cur).0[k])
                == c);
    } else {
        let b = rest[0];
        let cand = cur.push(b);
        if lookup_spec(t, cand) is Some {
            lemma_enc_run_code_range(rest.skip(1), t, cand);
            assert(enc_run(rest, t, cur) == enc_run(rest.skip(1), t, cand));
            assert forall|k: int| 0 <= k < enc_run(rest, t, cur).0.len() implies (
            #[trigger] enc_run(rest, t, cur).0[k]) < MAX_CODE by {
                assert(enc_run(rest, t, cur).0[k] == enc_run(rest.skip(1), t, cand).0[k]);
            }
        } else {
            let tp = push_tbl(t, cand);
            lemma_push_tbl_wf(t, cand);
            lemma_enc_run_code_range(rest.skip(1), tp, seq![b]);
            let rr = enc_run(rest.skip(1), tp, seq![b]);
            assert(enc_run(rest, t, cur).0 == seq![c] + rr.0);
            assert forall|k: int| 0 <= k < enc_run(rest, t, cur).0.len() implies (
            #[trigger] enc_run(rest, t, cur).0[k]) < MAX_CODE by {
                if k == 0 {
                    assert(enc_run(rest, t, cur).0[k] == c);
                } else {
                    assert(enc_run(rest, t, cur).0[k] == rr.0[k - 1]);
                }
            }
        }
    }
}

/// Code range: every emitted code fits the 16-bit field and in fact stays
/// below [`MAX_CODE`], which is never assigned.
pub proof fn lemma_code_range(input: Seq<u8>)
    ensures
        forall|k: int|
            0 <= k < encode_spec(input).len() ==> (#[trigger] encode_spec(input)[k]) < MAX_CODE,
{
    if input.len() != 0 {
        lemma_enc_run_code_range(input.skip(1), Seq::<Seq<u8>>::empty(), seq![input[0]]);
    }
}

/// Codes 0–255 belong to the single-byte entries alone: a sequence maps to a
/// code below 256 exactly when it is that code's one-byte sequence.
pub proof fn lemma_low_code_single_byte(t: Seq<Seq<u8>>, s: Seq<u8>, c: u16)
    requires
        wf_table(t),
        lookup_spec(t, s) == Some(c),
    ensures
        (c as int) < 256 <==> s.len() == 1,
        (c as int) < 256 ==> s == seq![c as u8],
{
    if s.len() == 1 {
        assert(s =~= seq![c as u8]);
    } else {
        lemma_find_from_props(t, s, 0);
    }
}

/// Codes 0–255 are never reassigned: whatever the table holds, such a code
/// still denotes its own single byte.
pub proof fn lemma_low_code_fixed(t: Seq<Seq<u8>>, c: int)
    requires
        0 <= c < 256,
    ensures
        entry_at(t, c) == seq![c as u8],
{
}

/// Monotonic assignment within a generation: an insertion that does not
/// trigger a reset takes exactly the next free code `256 + len` — one more
/// than every code already assigned — and leaves all earlier entries
/// untouched.
pub proof fn lemma_monotonic_assignment(t: Seq<Seq<u8>>, e: Seq<u8>)
    requires
        wf_table(t),
        e.len() >= 2,
        256 + t.len() + 1 < MAX_CODE as int,
    ensures
        push_tbl(t, e).len() == t.len() + 1,
        entry_at(push_tbl(t, e), 256 + t.len() as int) == e,
        forall|c: int|
            0 <= c < 256 + t.len() ==> #[trigger] entry_at(push_tbl(t, e), c) == entry_at(t, c),
{
    assert(push_tbl(t, e) == t.push(e));
}

/// Reset symmetry: after the decoder has consumed the complete code stream —
/// the same number of codes the encoder emitted — its table equals the
/// encoder's final table: same entries, same count, same generation.
pub proof fn lemma_reset_symmetry(input: Seq<u8>)
    ensures
        decode_final_table(encode_spec(input)) == Some(encode_final_table(input)),
{
    if input.len() == 0 {
        assert(dec_run(Seq::<u16>::empty(), Seq::<Seq<u8>>::empty(), Seq::<u8>::empty())
            == Some((Seq::<u8>::empty(), Seq::<Seq<u8>>::empty())));
    } else {
        let cur0 = seq![input[0]];
        assert(sim_rel(Seq::<Seq<u8>>::empty(), cur0, Seq::<Seq<u8>>::empty(), Seq::<u8>::empty()));
        lemma_sim(input.skip(1), Seq::<Seq<u8>>::empty(), cur0, Seq::<Seq<u8>>::empty(), Seq::<u8>::empty());
    }
}

/// A one-byte input encodes to exactly one code, the byte's own value, and
/// that single code decodes back to the byte.
pub proof fn lemma_single_byte_input(b: u8)
    ensures
        encode_spec(seq![b]) == seq![b as u16],
        decode_spec(seq![b as u16]) == Some(seq![b]),
{
    let inp = seq![b];
    assert(inp.skip(1) =~= Seq::<u8>::empty());
    assert(enc_run(Seq::<u8>::empty(), Seq::<Seq<u8>>::empty(), seq![b]).0 =~= seq![b as u16]);
    lemma_round_trip(inp);
}

/// Empty input: zero bytes encode to zero codes, and zero codes decode to
/// zero bytes.
pub proof fn lemma_empty_input()
    ensures
        encode_spec(Seq::<u8>::empty()) == Seq::<u16>::empty(),
        decode_spec(Seq::<u16>::empty()) == Some(Seq::<u8>::empty()),
{
    assert(dec_run(Seq::<u16>::empty(), Seq::<Seq<u8>>::empty(), Seq::<u8>::empty()) == Some(
        (Seq::<u8>::empty(), Seq::<Seq<u8>>::empty()),
    ));
}

/// A run of the encoder emits at most one code per remaining input byte,
/// plus the final flush.
pub proof fn lemma_enc_run_no_expansion(rest: Seq<u8>, t: Seq<Seq<u8>>, cur: Seq<u8>)
    ensures
        enc_run(rest, t, cur).0.len() <= rest.len() + 1,
    decreases rest.len(),
{
    if rest.len() > 0 {
        let cand = cur.push(rest[0]);
        if lookup_spec(t, cand) is Some {
            lemma_enc_run_no_expansion(rest.skip(1), t, cand);
        } else {
            lemma_enc_run_no_expansion(rest.skip(1), push_tbl(t, cand), seq![rest[0]]);
        }
    }
}

/// Compression never expands the code count: the encoder emits at most one
/// code per input byte.  (How much shorter the stream gets depends on the
/// input's repetitiveness.)
pub proof fn lemma_no_expansion(input: Seq<u8>)
    ensures
        encode_spec(input).len() <= input.len(),
{
    if input.len() != 0 {
        lemma_enc_run_no_expansion(input.skip(1), Seq::<Seq<u8>>::empty(), seq![input[0]]);
    }
}

/// The wire form is lossless: serialising a code stream as little-endian
/// bytes always gives an even number of bytes, and parsing them restores the
/// codes exactly.
pub proof fn lemma_wire_round_trip(cs: Seq<u16>)
    ensures
        le_bytes_of_codes(cs).len() == 2 * cs.len(),
        codes_of_le_bytes(le_bytes_of_codes(cs)) == cs,
    decreases cs.len(),
{
    if cs.len() == 0 {
        assert(codes_of_le_bytes(le_bytes_of_codes(cs)) =~= cs);
    } else {
        let c = cs[0];
        let lo = (c as int % 256) as u8;
        let hi = (c as int / 256) as u8;
        lemma_wire_round_trip(cs.skip(1));
        let bs = le_bytes_of_codes(cs);
        assert(bs == seq![lo, hi] + le_bytes_of_codes(cs.skip(1)));
        assert(bs[0] == lo);
        assert(bs[1] == hi);
        assert(bs.skip(2) =~= le_bytes_of_codes(cs.skip(1)));
        assert((hi as int) * 256 + (lo as int) == c as int) by {
            lemma_fundamental_div_mod(c as int, 256);
        }
        assert(codes_of_le_bytes(bs) == seq![c] + codes_of_le_bytes(bs.skip(2)));
        assert(seq![c] + cs.skip(1) =~= cs);
    }
}

/// Round-trip at the byte level: the compressed wire stream has even length
/// and decompresses to the original input.
pub proof fn lemma_round_trip_bytes(input: Seq<u8>)
    ensures
        le_bytes_of_codes(encode_spec(input)).len() % 2 == 0,
        decode_spec(codes_of_le_bytes(le_bytes_of_codes(encode_spec(input)))) == Some(input),
{
    lemma_wire_round_trip(encode_spec(input));
    lemma_round_trip(input);
}

} // verus!
