//! The encoder and decoder state machines.
//!
//! `enc_run` and `dec_run` are the mathematical state machines: each consumes
//! one input item per step, carrying the current table and working string.
//! `encode` and `decode` are the executable counterparts, proved to compute
//! exactly what the state machines describe.

use vstd::prelude::*;

use crate::table::CodeTable;
use crate::table::MAX_CODE;
use crate::table::copy_bytes;
use crate::table::entry_at;
use crate::table::lookup_spec;
use crate::table::push_all;
use crate::table::push_tbl;
use crate::table::wf_table;

verus! {

/// Why a code stream was rejected.
#[derive(Clone, Copy, Debug, PartialEq, Eq, Structural)]
pub enum DecodeError {
    /// The byte stream has odd length, so it ends in the middle of a code.
    OddLength,
    /// A code could not be resolved: it is beyond the next free code, or it
    /// is the first code of the stream and refers to no seeded entry, or it
    /// claims a table slot whose sequence already has a code.
    BadCode,
}

/// The code a known sequence maps to (0 when absent; only applied to
/// sequences shown present).
pub open spec fn code_of(t: Seq<Seq<u8>>, s: Seq<u8>) -> u16 {
    match lookup_spec(t, s) {
        Some(c) => c,
        None => 0,
    }
}

/// The encoder state machine over the remaining input, given the current
/// table and the working string `cur` (always a sequence the table knows).
/// Returns the emitted codes and the final table.
///
/// While the working string extended by the next byte is still a known
/// sequence, it keeps growing; at the first mismatch the code of the matched
/// string is emitted, the extended string is inserted (subject to the
/// generation reset), and the working string restarts at the mismatching
/// byte.  At end of input the code of the working string is flushed.
pub open spec fn enc_run(rest: Seq<u8>, t: Seq<Seq<u8>>, cur: Seq<u8>) -> (Seq<u16>, Seq<Seq<u8>>)
    decreases rest.len(),
{
    if rest.len() == 0 {
        (seq![code_of(t, cur)], t)
    } else {
        let cand = cur.push(rest[0]);
        if lookup_spec(t, cand) is Some {
            enc_run(rest.skip(1), t, cand)
        } else {
            let r = enc_run(rest.skip(1), push_tbl(t, cand), seq![rest[0]]);
            (seq![code_of(t, cur)] + r.0, r.1)
        }
    }
}

/// The code stream that a byte sequence encodes to.  Empty input emits no
/// codes; otherwise the machine starts with the first byte as working string
/// and a generation-0 table.
pub open spec fn encode_spec(inp: Seq<u8>) -> Seq<u16> {
    if inp.len() == 0 {
        Seq::empty()
    } else {
        enc_run(inp.skip(1), Seq::empty(), seq![inp[0]]).0
    }
}

/// The encoder's table when the whole input has been consumed.
pub open spec fn encode_final_table(inp: Seq<u8>) -> Seq<Seq<u8>> {
    if inp.len() == 0 {
        Seq::empty()
    } else {
        enc_run(inp.skip(1), Seq::empty(), seq![inp[0]]).1
    }
}

/// The decoder state machine over the remaining codes, given the current
/// table and the previously emitted sequence `prev` (empty only before the
/// first code).  Returns the emitted bytes and the final table, or `None` for
/// a malformed stream.
///
/// A known code emits its entry and, except at the very first code, inserts
/// `prev` extended by the entry's first byte under the next free code.  The
/// one unknown code the race can produce is exactly the next free code; its
/// entry is synthesized as `prev` extended by `prev`'s own first byte.  Both
/// insertions apply the same generation-reset rule as the encoder.
///
/// Insertion keeps the table's injectivity invariant: a derived entry whose
/// sequence already has a code — something no encoder-produced stream can
/// cause — is skipped in the known-code case and rejected in the
/// unknown-code case, where the code could never be resolved consistently.
pub open spec fn dec_run(codes: Seq<u16>, t: Seq<Seq<u8>>, prev: Seq<u8>) -> Option<
    (Seq<u8>, Seq<Seq<u8>>),
>
    decreases codes.len(),
{
    if codes.len() == 0 {
        Some((Seq::empty(), t))
    } else {
        let c = codes[0] as int;
        if c < 256 + t.len() {
            let s = entry_at(t, c);
            let t2 = if prev.len() > 0 && lookup_spec(t, prev.push(s[0])) is None {
                push_tbl(t, prev.push(s[0]))
            } else {
                t
            };
            match dec_run(codes.skip(1), t2, s) {
                Some(r) => Some((s + r.0, r.1)),
                None => None,
            }
        } else if c == 256 + t.len() && prev.len() > 0 && lookup_spec(t, prev.push(prev[0]))
            is None {
            let s = prev.push(prev[0]);
            match dec_run(codes.skip(1), push_tbl(t, s), s) {
                Some(r) => Some((s + r.0, r.1)),
                None => None,
            }
        } else {
            None
        }
    }
}

/// One encoder step on one input byte: from table and working string to the
/// (possibly) emitted code, the new table and the new working string.  An
/// empty working string only occurs before the first byte, which seeds it.
pub open spec fn enc_step(t: Seq<Seq<u8>>, cur: Seq<u8>, b: u8) -> (
    Option<u16>,
    Seq<Seq<u8>>,
    Seq<u8>,
) {
    if cur.len() == 0 {
        (None, t, seq![b])
    } else {
        let cand = cur.push(b);
        if lookup_spec(t, cand) is Some {
            (None, t, cand)
        } else {
            (Some(code_of(t, cur)), push_tbl(t, cand), seq![b])
        }
    }
}

/// One decoder step on one code: the emitted byte sequence (which becomes the
/// new `prev`) and the new table, or `None` for an unresolvable code.
pub open spec fn dec_step(t: Seq<Seq<u8>>, prev: Seq<u8>, c: u16) -> Option<
    (Seq<u8>, Seq<Seq<u8>>),
> {
    if (c as int) < 256 + t.len() {
        let s = entry_at(t, c as int);
        let t2 = if prev.len() > 0 && lookup_spec(t, prev.push(s[0])) is None {
            push_tbl(t, prev.push(s[0]))
        } else {
            t
        };
        Some((s, t2))
    } else if (c as int) == 256 + t.len() && prev.len() > 0 && lookup_spec(t, prev.push(prev[0]))
        is None {
        let s = prev.push(prev[0]);
        Some((s, push_tbl(t, s)))
    } else {
        None
    }
}

/// A non-empty encoder run is one `enc_step` followed by the run on the rest.
pub proof fn lemma_enc_run_step(rest: Seq<u8>, t: Seq<Seq<u8>>, cur: Seq<u8>)
    requires
        rest.len() > 0,
        cur.len() > 0,
    ensures
        enc_run(rest, t, cur) == ({
            let (em, t2, cur2) = enc_step(t, cur, rest[0]);
            let r = enc_run(rest.skip(1), t2, cur2);
            (
                match em {
                    Some(c) => seq![c] + r.0,
                    None => r.0,
                },
                r.1,
            )
        }),
{
}

/// A non-empty decoder run is one `dec_step` followed by the run on the rest.
pub proof fn lemma_dec_run_step(codes: Seq<u16>, t: Seq<Seq<u8>>, prev: Seq<u8>)
    requires
        codes.len() > 0,
    ensures
        dec_run(codes, t, prev) == (match dec_step(t, prev, codes[0]) {
            Some(st) => match dec_run(codes.skip(1), st.1, st.0) {
                Some(r) => Some((st.0 + r.0, r.1)),
                None => None,
            },
            None => None,
        }),
{
}

/// The byte sequence a code stream decodes to, or `None` for a malformed
/// stream.
pub open spec fn decode_spec(codes: Seq<u16>) -> Option<Seq<u8>> {
    match dec_run(codes, Seq::empty(), Seq::empty()) {
        Some(r) => Some(r.0),
        None => None,
    }
}

/// The decoder's table when the whole code stream has been consumed.
pub open spec fn decode_final_table(codes: Seq<u16>) -> Option<Seq<Seq<u8>>> {
    match dec_run(codes, Seq::empty(), Seq::empty()) {
        Some(r) => Some(r.1),
        None => None,
    }
}

/// The encoder component: consumes bytes one at a time, drives the table,
/// and hands out the codes to emit.
pub struct Encoder {
    table: CodeTable,
    cur: Vec<u8>,
}

impl Encoder {
    /// The table contents.
    pub closed spec fn tbl(&self) -> Seq<Seq<u8>> {
        self.table@
    }

    /// The working string: the longest sequence matched so far.
    pub closed spec fn cur_str(&self) -> Seq<u8> {
        self.cur@
    }

    /// The component invariant: the table is well-formed with room for the
    /// next insertion, and the working string, once seeded, is always a
    /// sequence the table knows.
    pub open spec fn inv(&self) -> bool {
        &&& wf_table(self.tbl())
        &&& 256 + self.tbl().len() < MAX_CODE as int
        &&& self.cur_str().len() > 0 ==> lookup_spec(self.tbl(), self.cur_str()) is Some
    }

    /// A fresh encoder: generation-0 table, no working string yet.
    pub fn new() -> (e: Encoder)
        ensures
            e.inv(),
            e.tbl() == Seq::<Seq<u8>>::empty(),
            e.cur_str() == Seq::<u8>::empty(),
    {
        let e = Encoder { table: CodeTable::new(), cur: Vec::new() };
        e
    }

    /// Consumes one input byte, returning the code to emit if this byte
    /// ended a match.  Behaves exactly as [`enc_step`] describes.
    pub fn push_byte(&mut self, b: u8) -> (emitted: Option<u16>)
        requires
            old(self).inv(),
        ensures
            final(self).inv(),
            ({
                let (em, t2, c2) = enc_step(old(self).tbl(), old(self).cur_str(), b);
                emitted == em && final(self).tbl() == t2 && final(self).cur_str() == c2
            }),
    {
        if self.cur.len() == 0 {
            self.cur.push(b);
            proof {
                assert(self.cur@ =~= seq![b]);
            }
            return None;
        }
        let mut cand = copy_bytes(&self.cur);
        cand.push(b);
        let hit = self.table.lookup(&cand);
        if hit.is_some() {
            self.cur = cand;
            None
        } else {
            let c = self.table.lookup(&self.cur).unwrap();
            let nc = self.table.next_code();
            self.table.insert(&cand, nc);
            if self.table.next_code() == MAX_CODE {
                self.table.reset();
            }
            self.cur = Vec::new();
            self.cur.push(b);
            proof {
                assert(self.cur@ =~= seq![b]);
            }
            Some(c)
        }
    }

    /// End of input: the code for the pending working string, or `None` when
    /// no byte was ever consumed.
    pub fn finish(&self) -> (last: Option<u16>)
        requires
            self.inv(),
        ensures
            self.cur_str().len() == 0 ==> last is None,
            self.cur_str().len() > 0 ==> last == Some(code_of(self.tbl(), self.cur_str())),
    {
        if self.cur.len() == 0 {
            None
        } else {
            Some(self.table.lookup(&self.cur).unwrap())
        }
    }
}

/// The decoder component: consumes codes one at a time, drives the reverse
/// table, and hands out the bytes each code stands for.
pub struct Decoder {
    table: CodeTable,
    prev: Vec<u8>,
}

impl Decoder {
    /// The table contents.
    pub closed spec fn tbl(&self) -> Seq<Seq<u8>> {
        self.table@
    }

    /// The previously emitted sequence; empty before the first code.
    pub closed spec fn prev_str(&self) -> Seq<u8> {
        self.prev@
    }

    /// The component invariant: the table is well-formed with room for the
    /// next insertion.
    pub open spec fn inv(&self) -> bool {
        &&& wf_table(self.tbl())
        &&& 256 + self.tbl().len() < MAX_CODE as int
    }

    /// A fresh decoder: generation-0 table, nothing emitted yet.
    pub fn new() -> (d: Decoder)
        ensures
            d.inv(),
            d.tbl() == Seq::<Seq<u8>>::empty(),
            d.prev_str() == Seq::<u8>::empty(),
    {
        let d = Decoder { table: CodeTable::new(), prev: Vec::new() };
        d
    }

    /// Consumes one code and returns the bytes it stands for, exactly as
    /// [`dec_step`] describes; an unresolvable code is rejected and leaves
    /// the decoder unchanged.
    pub fn push_code(&mut self, c: u16) -> (r: Result<Vec<u8>, DecodeError>)
        requires
            old(self).inv(),
        ensures
            final(self).inv(),
            match r {
                Ok(bytes) => dec_step(old(self).tbl(), old(self).prev_str(), c) == Some(
                    (bytes@, final(self).tbl()),
                ) && final(self).prev_str() == bytes@,
                Err(e) => {
                    &&& e == DecodeError::BadCode
                    &&& dec_step(old(self).tbl(), old(self).prev_str(), c) is None
                    &&& final(self).tbl() == old(self).tbl()
                    &&& final(self).prev_str() == old(self).prev_str()
                },
            },
    {
        let ghost pre_tbl = self.table@;
        let ghost pre_prev = self.prev@;
        let nc = self.table.next_code();
        if c < nc {
            let s = self.table.get(c).unwrap();
            proof {
                assert(s@ == entry_at(pre_tbl, c as int));
                if (c as int) < 256 {
                    assert(s@.len() == 1);
                } else {
                    assert(s@ == pre_tbl[c as int - 256]);
                    assert(s@.len() >= 2);
                }
            }
            if self.prev.len() > 0 {
                let mut cand = copy_bytes(&self.prev);
                cand.push(s[0]);
                proof {
                    assert(cand@ == pre_prev.push(s@[0]));
                }
                let dup = self.table.lookup(&cand);
                if dup.is_none() {
                    let code2 = self.table.next_code();
                    self.table.insert(&cand, code2);
                    if self.table.next_code() == MAX_CODE {
                        self.table.reset();
                    }
                }
            }
            self.prev = s;
            let bytes = copy_bytes(&self.prev);
            proof {
                let t2 = if pre_prev.len() > 0 && lookup_spec(
                    pre_tbl,
                    pre_prev.push(entry_at(pre_tbl, c as int)[0]),
                ) is None {
                    push_tbl(pre_tbl, pre_prev.push(entry_at(pre_tbl, c as int)[0]))
                } else {
                    pre_tbl
                };
                assert(self.table@ == t2);
            }
            Ok(bytes)
        } else if c == nc && self.prev.len() > 0 {
            let mut cand = copy_bytes(&self.prev);
            cand.push(self.prev[0]);
            proof {
                assert(cand@ == pre_prev.push(pre_prev[0]));
            }
            let dup = self.table.lookup(&cand);
            if dup.is_some() {
                return Err(DecodeError::BadCode);
            }
            self.table.insert(&cand, c);
            if self.table.next_code() == MAX_CODE {
                self.table.reset();
            }
            self.prev = cand;
            let bytes = copy_bytes(&self.prev);
            proof {
                assert(self.table@ == push_tbl(pre_tbl, pre_prev.push(pre_prev[0])));
            }
            Ok(bytes)
        } else {
            Err(DecodeError::BadCode)
        }
    }
}

/// Encodes a byte sequence into its stream of 16-bit codes.
pub fn encode(input: &Vec<u8>) -> (codes: Vec<u16>)
    ensures
        codes@ == encode_spec(input@),
{
    let mut codes: Vec<u16> = Vec::new();
    if input.len() == 0 {
        return codes;
    }
    let mut enc = Encoder::new();
    let first = enc.push_byte(input[0]);
    let mut i: usize = 1;
    proof {
        assert(first is None);
        assert(enc.cur_str() =~= seq![input@[0]]);
        assert(codes@ + enc_run(input@.skip(1), enc.tbl(), enc.cur_str()).0 =~= encode_spec(
            input@,
        ));
    }
    while i < input.len()
        invariant
            1 <= i <= input@.len(),
            enc.inv(),
            enc.cur_str().len() >= 1,
            codes@ + enc_run(input@.skip(i as int), enc.tbl(), enc.cur_str()).0 == encode_spec(
                input@,
            ),
        decreases input@.len() - i,
    {
        let ghost rest = input@.skip(i as int);
        let ghost pre_t = enc.tbl();
        let ghost pre_c = enc.cur_str();
        let ghost pre_codes = codes@;
        proof {
            assert(rest[0] == input@[i as int]);
            assert(rest.skip(1) =~= input@.skip(i as int + 1));
            lemma_enc_run_step(rest, pre_t, pre_c);
        }
        let b = input[i];
        match enc.push_byte(b) {
            Some(c) => {
                codes.push(c);
                proof {
                    let r = enc_run(input@.skip(i as int + 1), enc.tbl(), enc.cur_str());
                    assert(codes@ =~= pre_codes + seq![c]);
                    assert((pre_codes + seq![c]) + r.0 =~= pre_codes + (seq![c] + r.0));
                }
            },
            None => {},
        }
        i += 1;
    }
    let ghost rest = input@.skip(i as int);
    let ghost pre_codes = codes@;
    proof {
        assert(rest =~= Seq::<u8>::empty());
        assert(enc_run(rest, enc.tbl(), enc.cur_str()) == (
            seq![code_of(enc.tbl(), enc.cur_str())],
            enc.tbl(),
        ));
    }
    match enc.finish() {
        Some(c) => {
            codes.push(c);
            proof {
                assert(codes@ =~= pre_codes + seq![c]);
                assert(codes@ =~= encode_spec(input@));
            }
            codes
        },
        None => {
            proof {
                assert(false);
            }
            codes
        },
    }
}

/// Decodes a stream of 16-bit codes back into bytes.  Returns
/// [`DecodeError::BadCode`] exactly when the stream is malformed: some code
/// neither denotes a current entry nor is the one unknown code that the
/// standard one-step-behind race can produce.
pub fn decode(codes: &Vec<u16>) -> (r: Result<Vec<u8>, DecodeError>)
    ensures
        match r {
            Ok(out) => decode_spec(codes@) == Some(out@),
            Err(e) => decode_spec(codes@) is None && e == DecodeError::BadCode,
        },
{
    let mut out: Vec<u8> = Vec::new();
    let mut dec = Decoder::new();
    let mut j: usize = 0;
    proof {
        assert(codes@.skip(0) =~= codes@);
        if dec_run(codes@, Seq::empty(), Seq::empty()) is Some {
            let r = dec_run(codes@, Seq::empty(), Seq::empty())->Some_0;
            assert(Seq::<u8>::empty() + r.0 =~= r.0);
        }
    }
    while j < codes.len()
        invariant
            0 <= j <= codes@.len(),
            dec.inv(),
            match dec_run(codes@.skip(j as int), dec.tbl(), dec.prev_str()) {
                Some(r) => dec_run(codes@, Seq::empty(), Seq::empty()) == Some(
                    (out@ + r.0, r.1),
                ),
                None => dec_run(codes@, Seq::empty(), Seq::empty()) is None,
            },
        decreases codes@.len() - j,
    {
        let ghost rest = codes@.skip(j as int);
        let ghost pre_t = dec.tbl();
        let ghost pre_p = dec.prev_str();
        let ghost pre_out = out@;
        proof {
            assert(rest[0] == codes@[j as int]);
            assert(rest.skip(1) =~= codes@.skip(j as int + 1));
            lemma_dec_run_step(rest, pre_t, pre_p);
        }
        let c = codes[j];
        match dec.push_code(c) {
            Ok(bytes) => {
                push_all(&mut out, &bytes);
                proof {
                    match dec_run(codes@.skip(j as int + 1), dec.tbl(), dec.prev_str()) {
                        Some(r) => {
                            assert((pre_out + bytes@) + r.0 =~= pre_out + (bytes@ + r.0));
                        },
                        None => {},
                    }
                }
            },
            Err(e) => {
                proof {
                    assert(dec_run(rest, pre_t, pre_p) is None);
                }
                return Err(e);
            },
        }
        j += 1;
    }
    proof {
        assert(codes@.skip(j as int) =~= Seq::<u16>::empty());
        assert(dec_run(codes@.skip(j as int), dec.tbl(), dec.prev_str()) == Some(
            (Seq::<u8>::empty(), dec.tbl()),
        ));
        assert(out@ + Seq::<u8>::empty() =~= out@);
    }
    Ok(out)
}

} // verus!
