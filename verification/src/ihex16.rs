use vstd::prelude::*;

verus! {

/// Largest address a memory word may carry: one word stride below the top of
/// the 32-bit address space, so that the address one past any word still fits.
pub const MAX_WORD_ADDRESS: u32 = 0xFFFFFFF8;

/// One fixed-size unit of memory content at a given byte offset.
#[derive(Clone, Copy, Debug, PartialEq, Eq, Structural)]
pub struct IHex16Word {
    pub address: u32,
    pub value: u32,
}

/// A sparse memory image: an ordered sequence of words, strictly increasing
/// by address, each address a multiple of the word stride (4 bytes).
pub struct IHex16File(pub Vec<IHex16Word>);

/// A single word respects the data-model invariant: its address is aligned to
/// the word stride and small enough that the following stride still fits in 32 bits.
pub open spec fn word_ok(w: IHex16Word) -> bool {
    w.address % 4 == 0 && w.address <= MAX_WORD_ADDRESS
}

/// The memory-sequence invariant: every word is well formed and addresses are
/// strictly increasing (no duplicates).
pub open spec fn words_wf(s: Seq<IHex16Word>) -> bool {
    &&& forall|i: int| 0 <= i < s.len() ==> #[trigger] word_ok(s[i])
    &&& forall|i: int, j: int|
        0 <= i < j < s.len() ==> #[trigger] s[i].address < #[trigger] s[j].address
}

impl IHex16File {
    /// The sortedness/alignment invariant the diff engine relies on.
    pub open spec fn wf(self) -> bool {
        words_wf(self.0@)
    }

    /// Runtime check of the invariant, for callers that obtained the words
    /// from an unverified source.
    pub fn check_wf(&self) -> (r: bool)
        ensures
            r == self.wf(),
    {
        let mut i: usize = 0;
        while i < self.0.len()
            invariant
                i <= self.0.len(),
                forall|k: int| 0 <= k < i ==> #[trigger] word_ok(self.0@[k]),
                forall|k: int, j: int|
                    0 <= k < j < i ==> #[trigger] self.0@[k].address < #[trigger] self.0@[j].address,
            decreases self.0.len() - i,
        {
            let w = self.0[i];
            if !(w.address % 4 == 0 && w.address <= MAX_WORD_ADDRESS) {
                assert(!word_ok(self.0@[i as int]));
                return false;
            }
            if i > 0 && !(self.0[i - 1].address < w.address) {
                return false;
            }
            assert(forall|k: int|
                0 <= k < i - 1 ==> #[trigger] self.0@[k].address < self.0@[i - 1].address);
            i = i + 1;
        }
        true
    }
}

/// One line of hex-record text, reduced to what the word extraction needs:
/// data payloads, extended linear address directives, the end-of-file marker,
/// and everything else (unrecognized or malformed lines) as `Other`.
pub enum HexRecord {
    Data { offset: u16, bytes: Vec<u8> },
    ExtendedAddress { base: u16 },
    EndOfFile,
    Other,
}

pub uninterp spec fn records_of(s: Seq<char>) -> Seq<HexRecord>;

/// Relies on ihex::Reader: parsing hex-record text is a function of the text
/// alone; each non-empty line yields one record, malformed lines an error
/// (mapped to `Other` here), and iteration stops after an end-of-file record.
#[verifier::external_body]
fn parse_records(s: &str) -> (r: Vec<HexRecord>)
    ensures
        r@ == records_of(s@),
        forall|i: int|
            0 <= i < r@.len() ==> ((#[trigger] r@[i]) matches HexRecord::Data { offset, bytes }
                ==> bytes@.len() <= 255),
{
    let options = ihex::ReaderOptions { stop_after_first_error: false, stop_after_eof: true };
    ihex::Reader::new_with_options(s, options)
        .map(|rec| match rec {
            Ok(ihex::Record::Data { offset, value }) => HexRecord::Data { offset, bytes: value },
            Ok(ihex::Record::ExtendedLinearAddress(base)) => HexRecord::ExtendedAddress { base },
            Ok(ihex::Record::EndOfFile) => HexRecord::EndOfFile,
            Ok(_) => HexRecord::Other,
            Err(_) => HexRecord::Other,
        })
        .collect()
}

/// A payload byte, with bytes past the end reading as zero (a trailing
/// partial word is padded with zeros).
pub open spec fn byte_at(bytes: Seq<u8>, i: int) -> u8 {
    if 0 <= i < bytes.len() {
        bytes[i]
    } else {
        0
    }
}

/// The 32-bit value of a little-endian 4-byte group.
pub open spec fn word_value(b0: u8, b1: u8, b2: u8, b3: u8) -> u32 {
    ((b0 as int) + 256 * (b1 as int) + 65536 * (b2 as int) + 16777216 * (b3 as int)) as u32
}

/// Words extracted from one data payload laid out at `base`: consecutive
/// 4-byte little-endian groups, zero-padded at the tail; a word whose address
/// would be misaligned or fall outside the address space is skipped.
pub open spec fn data_words(base: int, bytes: Seq<u8>) -> Seq<IHex16Word>
    decreases bytes.len(),
{
    if bytes.len() == 0 {
        seq![]
    } else {
        let w = IHex16Word {
            address: base as u32,
            value: word_value(
                byte_at(bytes, 0),
                byte_at(bytes, 1),
                byte_at(bytes, 2),
                byte_at(bytes, 3),
            ),
        };
        let rest = data_words(
            base + 4,
            if bytes.len() <= 4 {
                Seq::empty()
            } else {
                bytes.skip(4)
            },
        );
        if 0 <= base <= MAX_WORD_ADDRESS as int && base % 4 == 0 {
            seq![w] + rest
        } else {
            rest
        }
    }
}

/// Words extracted from a record list, in text order: data records contribute
/// their words at the current extended base plus their offset, extended
/// address directives rebase what follows, the end-of-file marker stops
/// extraction, and other records are skipped.
pub open spec fn words_of_records(recs: Seq<HexRecord>, base: u32) -> Seq<IHex16Word>
    decreases recs.len(),
{
    if recs.len() == 0 {
        seq![]
    } else {
        match recs[0] {
            HexRecord::EndOfFile => seq![],
            HexRecord::ExtendedAddress { base: b } => words_of_records(
                recs.skip(1),
                ((b as int) * 65536) as u32,
            ),
            HexRecord::Other => words_of_records(recs.skip(1), base),
            HexRecord::Data { offset, bytes } => data_words(base as int + offset as int, bytes@)
                + words_of_records(recs.skip(1), base),
        }
    }
}

/// Insertion of one word into an address-sorted sequence; a word whose
/// address is already present is dropped (the earlier occurrence wins).
pub open spec fn insert_word(s: Seq<IHex16Word>, w: IHex16Word) -> Seq<IHex16Word>
    decreases s.len(),
{
    if s.len() == 0 {
        seq![w]
    } else if w.address < s[0].address {
        seq![w] + s
    } else if w.address == s[0].address {
        s
    } else {
        seq![s[0]] + insert_word(s.skip(1), w)
    }
}

/// Sorting with first-wins duplicate removal: the words in extraction order,
/// inserted one after the other.
pub open spec fn normalize(ws: Seq<IHex16Word>) -> Seq<IHex16Word>
    decreases ws.len(),
{
    if ws.len() == 0 {
        seq![]
    } else {
        insert_word(normalize(ws.drop_last()), ws.last())
    }
}

proof fn lemma_insert_word_wf(s: Seq<IHex16Word>, w: IHex16Word)
    requires
        words_wf(s),
        word_ok(w),
    ensures
        words_wf(insert_word(s, w)),
        insert_word(s, w).len() >= 1,
        insert_word(s, w)[0].address == (if s.len() == 0 {
            w.address
        } else if w.address < s[0].address {
            w.address
        } else {
            s[0].address
        }),
    decreases s.len(),
{
    let out = insert_word(s, w);
    if s.len() == 0 {
        assert(out =~= seq![w]);
    } else if w.address < s[0].address {
        assert(out =~= seq![w] + s);
        assert forall|i: int, j: int| 0 <= i < j < out.len() implies #[trigger] out[i].address
            < #[trigger] out[j].address by {
            if i > 0 {
                assert(out[i] == s[i - 1] && out[j] == s[j - 1]);
            } else {
                assert(out[j] == s[j - 1]);
                if j > 1 {
                    assert(s[0].address < s[j - 1].address);
                }
            }
        }
        assert forall|i: int| 0 <= i < out.len() implies #[trigger] word_ok(out[i]) by {
            if i > 0 {
                assert(out[i] == s[i - 1]);
            }
        }
    } else if w.address == s[0].address {
    } else {
        assert(words_wf(s.skip(1))) by {
            assert(forall|i: int|
                0 <= i < s.skip(1).len() ==> #[trigger] s.skip(1)[i] == s[i + 1]);
        }
        lemma_insert_word_wf(s.skip(1), w);
        let rest = insert_word(s.skip(1), w);
        assert(out =~= seq![s[0]] + rest);
        assert(rest[0].address > s[0].address) by {
            if s.len() > 1 {
                assert(s.skip(1)[0] == s[1]);
                assert(s[0].address < s[1].address);
            }
        }
        assert forall|i: int, j: int| 0 <= i < j < out.len() implies #[trigger] out[i].address
            < #[trigger] out[j].address by {
            if i > 0 {
                assert(out[i] == rest[i - 1] && out[j] == rest[j - 1]);
            } else {
                assert(out[j] == rest[j - 1]);
                if j > 1 {
                    assert(rest[0].address < rest[j - 1].address);
                }
            }
        }
        assert forall|i: int| 0 <= i < out.len() implies #[trigger] word_ok(out[i]) by {
            if i > 0 {
                assert(out[i] == rest[i - 1]);
            }
        }
    }
}

proof fn lemma_insert_word_prefix(s: Seq<IHex16Word>, w: IHex16Word, j: int)
    requires
        0 <= j <= s.len(),
        forall|k: int| 0 <= k < j ==> #[trigger] s[k].address < w.address,
    ensures
        insert_word(s, w) == s.take(j) + insert_word(s.skip(j), w),
    decreases j,
{
    if j == 0 {
        assert(s.skip(0) =~= s);
        assert(s.take(0) + insert_word(s, w) =~= insert_word(s, w));
    } else {
        assert(s[0].address < w.address);
        assert(s.len() > 0);
        lemma_insert_word_prefix(s.skip(1), w, j - 1);
        assert(s.take(j) =~= seq![s[0]] + s.skip(1).take(j - 1));
        assert(s.skip(j) =~= s.skip(1).skip(j - 1));
        assert(seq![s[0]] + (s.skip(1).take(j - 1) + insert_word(s.skip(1).skip(j - 1), w)) =~= s.take(
            j,
        ) + insert_word(s.skip(j), w));
    }
}

fn insert_word_exec(v: Vec<IHex16Word>, w: IHex16Word) -> (out: Vec<IHex16Word>)
    ensures
        out@ == insert_word(v@, w),
{
    let mut out: Vec<IHex16Word> = Vec::new();
    let mut i: usize = 0;
    while i < v.len() && v[i].address < w.address
        invariant
            i <= v@.len(),
            out@ == v@.take(i as int),
            forall|k: int| 0 <= k < i ==> #[trigger] v@[k].address < w.address,
        decreases v@.len() - i,
    {
        out.push(v[i]);
        i = i + 1;
    }
    proof {
        lemma_insert_word_prefix(v@, w, i as int);
    }
    if i < v.len() && v[i].address == w.address {
        proof {
            assert(v@.skip(i as int)[0] == v@[i as int]);
            assert(insert_word(v@.skip(i as int), w) == v@.skip(i as int));
            assert(v@.take(i as int) + v@.skip(i as int) =~= v@);
        }
        return v;
    }
    proof {
        if i < v.len() {
            assert(v@.skip(i as int)[0] == v@[i as int]);
            assert(v@[i as int].address > w.address);
        }
        assert(insert_word(v@.skip(i as int), w) == seq![w] + v@.skip(i as int));
    }
    out.push(w);
    let ghost mid = out@;
    let mut j: usize = i;
    while j < v.len()
        invariant
            i <= j <= v@.len(),
            out@ == mid + v@.subrange(i as int, j as int),
            mid == v@.take(i as int).push(w),
        decreases v@.len() - j,
    {
        proof {
            assert(v@.subrange(i as int, j + 1) =~= v@.subrange(i as int, j as int).push(
                v@[j as int],
            ));
        }
        out.push(v[j]);
        j = j + 1;
    }
    proof {
        assert(out@ =~= v@.take(i as int) + (seq![w] + v@.skip(i as int)));
    }
    out
}

impl IHex16File {
    /// Parses hex-record text into a well-formed memory image: the text's
    /// words, sorted by address, duplicates and out-of-range or misaligned
    /// words dropped.
    #[verifier::rlimit(100)]
    #[verifier::spinoff_prover]
    pub fn from_hex(s: &str) -> (f: IHex16File)
        ensures
            f.wf(),
            f.0@ == normalize(words_of_records(records_of(s@), 0)),
    {
        let records = parse_records(s);
        let mut result: Vec<IHex16Word> = Vec::new();
        let mut base: u32 = 0;
        let ghost total = words_of_records(records@, 0);
        let ghost mut ext: Seq<IHex16Word> = Seq::empty();
        let mut r: usize = 0;
        let mut stopped = false;
        proof {
            assert(normalize(ext) =~= Seq::<IHex16Word>::empty());
            assert(records@.skip(0) =~= records@);
            assert(ext + words_of_records(records@, 0) =~= words_of_records(records@, 0));
        }
        while !stopped && r < records.len()
            invariant
                r <= records@.len(),
                base <= 0xFFFF0000u32,
                !stopped ==> ext + words_of_records(records@.skip(r as int), base) == total,
                stopped ==> ext == total,
                result@ == normalize(ext),
                words_wf(result@),
                forall|i: int|
                    0 <= i < records@.len() ==> ((#[trigger] records@[i]) matches HexRecord::Data {
                        offset,
                        bytes,
                    } ==> bytes@.len() <= 255),
            decreases 2 * (records@.len() - r) + (if stopped {
                0int
            } else {
                1int
            }),
        {
            let ghost tail = records@.skip(r as int);
            proof {
                assert(tail[0] == records@[r as int]);
                assert(tail.skip(1) =~= records@.skip(r as int + 1));
            }
            match &records[r] {
                HexRecord::EndOfFile => {
                    proof {
                        assert(words_of_records(tail, base) =~= Seq::<IHex16Word>::empty());
                        assert(ext + words_of_records(tail, base) =~= ext);
                    }
                    stopped = true;
                },
                HexRecord::ExtendedAddress { base: b } => {
                    base = (*b as u32) * 65536;
                    r = r + 1;
                },
                HexRecord::Other => {
                    r = r + 1;
                },
                HexRecord::Data { offset, bytes } => {
                    let ghost dwb = base as int + *offset as int;
                    let ghost ext0 = ext;
                    let mut k: usize = 0;
                    proof {
                        assert(bytes@.skip(0) =~= bytes@);
                        assert(ext0 + (data_words(dwb, bytes@) + words_of_records(
                            tail.skip(1),
                            base,
                        )) =~= (ext0 + data_words(dwb, bytes@)) + words_of_records(
                            tail.skip(1),
                            base,
                        ));
                    }
                    while 4 * k < bytes.len()
                        invariant
                            k <= 64,
                            bytes@.len() <= 255,
                            dwb == base as int + *offset as int,
                            base <= 0xFFFF0000u32,
                            result@ == normalize(ext),
                            words_wf(result@),
                            (ext0 + data_words(dwb, bytes@)) == ext + data_words(
                                dwb + 4 * k,
                                if 4 * k < bytes@.len() {
                                    bytes@.skip(4 * k)
                                } else {
                                    Seq::<u8>::empty()
                                },
                            ),
                        decreases bytes@.len() - k,
                    {
                        let ghost rem = bytes@.skip(4 * k);
                        let i0 = 4 * k;
                        let b0 = bytes[i0];
                        let b1 = if i0 + 1 < bytes.len() {
                            bytes[i0 + 1]
                        } else {
                            0
                        };
                        let b2 = if i0 + 2 < bytes.len() {
                            bytes[i0 + 2]
                        } else {
                            0
                        };
                        let b3 = if i0 + 3 < bytes.len() {
                            bytes[i0 + 3]
                        } else {
                            0
                        };
                        let value = (b0 as u32) + 256 * (b1 as u32) + 65536 * (b2 as u32)
                            + 16777216 * (b3 as u32);
                        let addr64: u64 = (base as u64) + (*offset as u64) + 4 * (k as u64);
                        proof {
                            assert(forall|j: int| 0 <= j < rem.len() ==> rem[j] == bytes@[4 * k + j]);
                            assert(byte_at(rem, 0) == b0 && byte_at(rem, 1) == b1 && byte_at(
                                rem,
                                2,
                            ) == b2 && byte_at(rem, 3) == b3);
                            assert(value == word_value(b0, b1, b2, b3));
                            assert(addr64 as int == dwb + 4 * k);
                            assert(if rem.len() <= 4 {
                                Seq::<u8>::empty()
                            } else {
                                rem.skip(4)
                            } =~= (if 4 * (k + 1) < bytes@.len() {
                                bytes@.skip(4 * (k + 1))
                            } else {
                                Seq::<u8>::empty()
                            }));
                        }
                        if addr64 % 4 == 0 && addr64 <= 0xFFFFFFF8 {
                            let w = IHex16Word { address: addr64 as u32, value };
                            proof {
                                assert(word_ok(w));
                                lemma_insert_word_wf(result@, w);
                                assert(ext.push(w).drop_last() =~= ext);
                            }
                            result = insert_word_exec(result, w);
                            proof {
                                ext = ext.push(w);
                            }
                        }
                        k = k + 1;
                    }
                    proof {
                        assert(data_words(
                            dwb + 4 * k,
                            if 4 * k < bytes@.len() {
                                bytes@.skip(4 * k)
                            } else {
                                Seq::<u8>::empty()
                            },
                        ) =~= Seq::<IHex16Word>::empty());
                        assert(ext =~= ext0 + data_words(dwb, bytes@));
                        assert(ext + words_of_records(tail.skip(1), base) =~= (ext0 + data_words(
                            dwb,
                            bytes@,
                        )) + words_of_records(tail.skip(1), base));
                    }
                    r = r + 1;
                },
            }
        }
        proof {
            if !stopped {
                assert(records@.skip(records@.len() as int) =~= Seq::<HexRecord>::empty());
                assert(ext + words_of_records(records@.skip(r as int), base) =~= ext);
            }
            assert(ext == total);
        }
        IHex16File(result)
    }
}

} // verus!
