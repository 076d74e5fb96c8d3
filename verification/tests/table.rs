use lzw::table::CodeTable;
use lzw::table::MAX_CODE;

#[test]
fn fresh_table_generation_zero() {
    let t = CodeTable::new();
    assert_eq!(t.entry_count(), 0);
    assert_eq!(t.next_code(), 256);
    // Every single-byte sequence is seeded.
    for b in [0u8, 9, 128, 255] {
        assert_eq!(t.lookup(&vec![b]), Some(b as u16));
        assert_eq!(t.get(b as u16).unwrap(), vec![b]);
    }
    // No multi-byte sequence has a code yet.
    assert_eq!(t.lookup(&vec![1u8, 2]), None);
    assert_eq!(t.get(256), None);
    // The empty sequence never has a code.
    assert_eq!(t.lookup(&Vec::new()), None);
}

#[test]
fn monotonic_assignment() {
    // Successive insertions take strictly increasing codes from 256 up.
    let mut t = CodeTable::new();
    let entries: [&[u8]; 3] = [b"ab", b"bc", b"abc"];
    for (i, e) in entries.iter().enumerate() {
        let code = t.next_code();
        assert_eq!(code, 256 + i as u16);
        t.insert(&e.to_vec(), code);
        assert_eq!(t.next_code(), code + 1);
        assert_eq!(t.lookup(&e.to_vec()), Some(code));
        assert_eq!(t.get(code).unwrap(), e.to_vec());
    }
    // Earlier entries keep their codes.
    assert_eq!(t.lookup(&b"ab".to_vec()), Some(256));
    assert_eq!(t.get(257).unwrap(), b"bc".to_vec());
    assert_eq!(t.entry_count(), 3);
}

#[test]
fn reset_discards_generation() {
    let mut t = CodeTable::new();
    t.insert(&b"xy".to_vec(), 256);
    t.insert(&b"yz".to_vec(), 257);
    assert_eq!(t.entry_count(), 2);
    t.reset();
    assert_eq!(t.entry_count(), 0);
    assert_eq!(t.next_code(), 256);
    assert_eq!(t.lookup(&b"xy".to_vec()), None);
    // Single-byte entries survive every reset.
    assert_eq!(t.lookup(&vec![120u8]), Some(120));
}

#[test]
fn ceiling_is_never_assigned() {
    assert_eq!(MAX_CODE, 65535);
    let t = CodeTable::new();
    assert_eq!(t.get(MAX_CODE), None);
}

#[test]
fn reset_symmetry_lock_step() {
    // Drive an encoder-side table over "ABABA", then a decoder-side table
    // over the emitted codes, and compare.  The encoder emits 65 (inserting
    // "AB"), 66 (inserting "BA"), 256 (inserting "ABA"), then flushes 65:
    // three insertions, and the decoder derives the same three.
    let input = b"ABABA";
    let mut enc = CodeTable::new();
    let mut cur: Vec<u8> = vec![input[0]];
    let mut emitted: Vec<u16> = Vec::new();
    for &b in &input[1..] {
        let mut cand = cur.clone();
        cand.push(b);
        if enc.lookup(&cand).is_some() {
            cur = cand;
        } else {
            emitted.push(enc.lookup(&cur).unwrap());
            let code = enc.next_code();
            enc.insert(&cand, code);
            if enc.next_code() == MAX_CODE {
                enc.reset();
            }
            cur = vec![b];
        }
    }
    emitted.push(enc.lookup(&cur).unwrap());
    assert_eq!(emitted, vec![65u16, 66, 256, 65]);

    // Decoder over the same codes, following the reverse-table rules.
    let mut dec = CodeTable::new();
    let mut prev: Vec<u8> = Vec::new();
    let mut output: Vec<u8> = Vec::new();
    for &c in &emitted {
        let entry = if dec.get(c).is_some() {
            let s = dec.get(c).unwrap();
            if !prev.is_empty() {
                let mut cand = prev.clone();
                cand.push(s[0]);
                if dec.lookup(&cand).is_none() {
                    let code = dec.next_code();
                    dec.insert(&cand, code);
                    if dec.next_code() == MAX_CODE {
                        dec.reset();
                    }
                }
            }
            s
        } else {
            assert_eq!(c, dec.next_code());
            let mut cand = prev.clone();
            cand.push(prev[0]);
            dec.insert(&cand, c);
            if dec.next_code() == MAX_CODE {
                dec.reset();
            }
            cand
        };
        output.extend_from_slice(&entry);
        prev = entry;
    }
    assert_eq!(output, input.to_vec());

    // After the same number of codes both tables hold the same entries.
    assert_eq!(dec.entry_count(), enc.entry_count());
    for i in 0..enc.entry_count() {
        let code = 256 + i as u16;
        assert_eq!(dec.get(code), enc.get(code));
    }
}
