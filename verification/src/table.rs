//! The kernel's per-process memory-map listing, parsed strictly into
//! typed region records.
//!
//! Grammar of one line: `<start>-<end> <perm4> <offset> <major>:<minor>
//! <inode> [pathname]`, numeric fields hexadecimal except the decimal
//! inode, fields separated by runs of blanks, the pathname (if present)
//! the remainder of the line verbatim.  Parsing is strict: the first line
//! that fails the grammar aborts the whole parse with a `ParseError`
//! naming the line, so that no malformed row is ever silently dropped.

use vstd::prelude::*;

use crate::AddressRange;
use crate::numeral::{
    all_dec_digits, all_hex_digits, canonical_hex, dec_val, hex_val, lemma_hex_round_trip,
    lower_hex_of, parse_dec_u64, parse_hex_u32, parse_hex_u64, valid_dec_u64, valid_hex_u32,
    valid_hex_u64,
};
use vstd::slice::{slice_subrange, slice_to_vec};

verus! {

/// Access flags of one region, read from the fixed four-character
/// permission field.  `shared` and `private` are never both set: the
/// fourth character selects one of them, or neither.
#[derive(Clone, Copy, Debug, PartialEq, Eq, Structural)]
pub struct Permissions {
    pub read: bool,
    pub write: bool,
    pub execute: bool,
    pub shared: bool,
    pub private: bool,
}

impl Permissions {
    pub open spec fn wf(self) -> bool {
        !(self.shared && self.private)
    }
}

/// Backing block device of a file-backed mapping; zero for anonymous
/// mappings.
#[derive(Clone, Copy, Debug, PartialEq, Eq, Structural)]
pub struct DeviceId {
    pub major: u32,
    pub minor: u32,
}

/// One row of the map listing.  `pathname` is `None` for an anonymous
/// mapping, a filesystem path for a file-backed one, or a bracketed
/// pseudo-name such as `[stack]` for kernel-provided regions.
#[derive(Debug)]
pub struct MemoryRegion {
    pub address: AddressRange,
    pub permissions: Permissions,
    pub offset: u64,
    pub device: DeviceId,
    pub inode: u64,
    pub pathname: Option<Vec<u8>>,
}

/// Mathematical model of one region row.
pub ghost struct RegionModel {
    pub address: AddressRange,
    pub permissions: Permissions,
    pub offset: u64,
    pub device: DeviceId,
    pub inode: u64,
    pub pathname: Option<Seq<u8>>,
}

impl RegionModel {
    pub open spec fn wf(self) -> bool {
        self.address.wf() && self.permissions.wf()
    }
}

impl View for MemoryRegion {
    type V = RegionModel;

    open spec fn view(&self) -> RegionModel {
        RegionModel {
            address: self.address,
            permissions: self.permissions,
            offset: self.offset,
            device: self.device,
            inode: self.inode,
            pathname: match self.pathname {
                Option::Some(p) => Option::Some(p@),
                Option::None => Option::None,
            },
        }
    }
}

impl MemoryRegion {
    pub open spec fn wf(self) -> bool {
        self@.wf()
    }

    /// A fresh record with the same model, so that a lookup can hand a
    /// row out without surrendering the table.
    pub fn duplicate(&self) -> (r: MemoryRegion)
        ensures
            r@ == self@,
    {
        let pathname = match &self.pathname {
            Option::Some(p) => Option::Some(slice_to_vec(p.as_slice())),
            Option::None => Option::None,
        };
        MemoryRegion {
            address: self.address,
            permissions: self.permissions,
            offset: self.offset,
            device: self.device,
            inode: self.inode,
            pathname,
        }
    }
}

/// Why one line failed the grammar.
#[derive(Clone, Copy, Debug, PartialEq, Eq, Structural)]
pub enum ParseReason {
    /// Fewer than the six mandatory fields.
    MissingField,
    /// The `<start>-<end>` field is not two hex numerals joined by `-`.
    BadAddress,
    /// Both addresses parsed but `start > end`.
    InvertedRange,
    /// The permission field is not exactly four characters.
    BadPermissions,
    /// The offset field is not a hex numeral within `u64`.
    BadOffset,
    /// The device field is not `<major>:<minor>` in hex within `u32`.
    BadDevice,
    /// The inode field is not a decimal numeral within `u64`.
    BadInode,
}

/// The strict parser's verdict on a malformed listing: the first
/// offending line, verbatim, with its one-based number and the reason.
#[derive(Debug)]
pub struct ParseError {
    pub line_number: usize,
    pub raw_line: Vec<u8>,
    pub reason: ParseReason,
}

/// Mathematical model of a `ParseError`.
pub ghost struct ErrModel {
    pub line_number: nat,
    pub raw_line: Seq<u8>,
    pub reason: ParseReason,
}

impl View for ParseError {
    type V = ErrModel;

    open spec fn view(&self) -> ErrModel {
        ErrModel {
            line_number: self.line_number as nat,
            raw_line: self.raw_line@,
            reason: self.reason,
        }
    }
}

/// Blank bytes that separate fields: space and tab.
pub open spec fn is_blank(b: u8) -> bool {
    b == 32 || b == 9
}

/// The input with its leading run of blanks removed.
pub open spec fn drop_blanks(s: Seq<u8>) -> Seq<u8>
    decreases s.len(),
{
    if s.len() > 0 && is_blank(s[0]) {
        drop_blanks(s.skip(1))
    } else {
        s
    }
}

/// Length of the leading run of non-blank bytes.
pub open spec fn tok_len(s: Seq<u8>) -> nat
    decreases s.len(),
{
    if s.len() > 0 && !is_blank(s[0]) {
        (1 + tok_len(s.skip(1))) as nat
    } else {
        0
    }
}

/// The first whitespace-separated token of the input (empty when there
/// is none).
pub open spec fn first_tok(s: Seq<u8>) -> Seq<u8> {
    drop_blanks(s).take(tok_len(drop_blanks(s)) as int)
}

/// What follows the first token.
pub open spec fn after_tok(s: Seq<u8>) -> Seq<u8> {
    drop_blanks(s).skip(tok_len(drop_blanks(s)) as int)
}

/// Index of the first occurrence of `b`, or -1.
pub open spec fn find_byte(s: Seq<u8>, b: u8) -> int
    decreases s.len(),
{
    if s.len() == 0 {
        -1
    } else if s[0] == b {
        0
    } else if find_byte(s.skip(1), b) < 0 {
        -1
    } else {
        1 + find_byte(s.skip(1), b)
    }
}

pub proof fn lemma_find_byte(s: Seq<u8>, b: u8)
    ensures
        find_byte(s, b) >= 0 ==> 0 <= find_byte(s, b) < s.len() && s[find_byte(s, b)] == b
            && forall|j: int| 0 <= j < find_byte(s, b) ==> s[j] != b,
        find_byte(s, b) < 0 ==> forall|j: int| 0 <= j < s.len() ==> s[j] != b,
    decreases s.len(),
{
    if s.len() > 0 && s[0] != b {
        lemma_find_byte(s.skip(1), b);
        let f = find_byte(s.skip(1), b);
        if f >= 0 {
            assert(s.skip(1)[f] == s[f + 1]);
            assert forall|j: int| 0 <= j < find_byte(s, b) implies s[j] != b by {
                if j > 0 {
                    assert(s.skip(1)[j - 1] == s[j]);
                }
            }
        } else {
            assert forall|j: int| 0 <= j < s.len() implies s[j] != b by {
                if j > 0 {
                    assert(s.skip(1)[j - 1] == s[j]);
                }
            }
        }
    }
}

/// The `<start>-<end>` field: two hex numerals joined by a dash, the
/// interval not inverted.
pub open spec fn spec_parse_address(t: Seq<u8>) -> Result<AddressRange, ParseReason> {
    let di = find_byte(t, 45);
    if di < 0 {
        Result::Err(ParseReason::BadAddress)
    } else {
        let s1 = t.take(di);
        let s2 = t.skip(di + 1);
        if !valid_hex_u64(s1) || !valid_hex_u64(s2) {
            Result::Err(ParseReason::BadAddress)
        } else if hex_val(s1) > hex_val(s2) {
            Result::Err(ParseReason::InvertedRange)
        } else {
            Result::Ok(
                AddressRange { start: hex_val(s1) as u64, end: hex_val(s2) as u64 },
            )
        }
    }
}

/// The fixed four-character permission field.  The first three
/// characters are read/write/execute, present unless `-`; the fourth is
/// `s` for shared, `p` for private, anything else neither — permissive by
/// the source format's own convention, not an error.
pub open spec fn spec_parse_permissions(t: Seq<u8>) -> Result<Permissions, ParseReason> {
    if t.len() != 4 {
        Result::Err(ParseReason::BadPermissions)
    } else {
        Result::Ok(
            Permissions {
                read: t[0] != 45,
                write: t[1] != 45,
                execute: t[2] != 45,
                shared: t[3] == 115,
                private: t[3] == 112,
            },
        )
    }
}

/// The `<major>:<minor>` device field, both hexadecimal.
pub open spec fn spec_parse_device(t: Seq<u8>) -> Result<DeviceId, ParseReason> {
    let ci = find_byte(t, 58);
    if ci < 0 {
        Result::Err(ParseReason::BadDevice)
    } else {
        let s1 = t.take(ci);
        let s2 = t.skip(ci + 1);
        if !valid_hex_u32(s1) || !valid_hex_u32(s2) {
            Result::Err(ParseReason::BadDevice)
        } else {
            Result::Ok(DeviceId { major: hex_val(s1) as u32, minor: hex_val(s2) as u32 })
        }
    }
}

/// One whole line of the listing.  The first five fields are mandatory;
/// the pathname, when present, is the remainder of the line after the
/// separating blanks, with no further tokenization.
pub open spec fn spec_parse_line(line: Seq<u8>) -> Result<RegionModel, ParseReason> {
    let t1 = first_tok(line);
    let r1 = after_tok(line);
    if t1.len() == 0 {
        Result::Err(ParseReason::MissingField)
    } else {
        match spec_parse_address(t1) {
            Result::Err(e) => Result::Err(e),
            Result::Ok(address) => {
                let t2 = first_tok(r1);
                let r2 = after_tok(r1);
                if t2.len() == 0 {
                    Result::Err(ParseReason::MissingField)
                } else {
                    match spec_parse_permissions(t2) {
                        Result::Err(e) => Result::Err(e),
                        Result::Ok(permissions) => {
                            let t3 = first_tok(r2);
                            let r3 = after_tok(r2);
                            if t3.len() == 0 {
                                Result::Err(ParseReason::MissingField)
                            } else if !valid_hex_u64(t3) {
                                Result::Err(ParseReason::BadOffset)
                            } else {
                                let t4 = first_tok(r3);
                                let r4 = after_tok(r3);
                                if t4.len() == 0 {
                                    Result::Err(ParseReason::MissingField)
                                } else {
                                    match spec_parse_device(t4) {
                                        Result::Err(e) => Result::Err(e),
                                        Result::Ok(device) => {
                                            let t5 = first_tok(r4);
                                            let r5 = after_tok(r4);
                                            if t5.len() == 0 {
                                                Result::Err(ParseReason::MissingField)
                                            } else if !valid_dec_u64(t5) {
                                                Result::Err(ParseReason::BadInode)
                                            } else {
                                                let p = drop_blanks(r5);
                                                Result::Ok(
                                                    RegionModel {
                                                        address,
                                                        permissions,
                                                        offset: hex_val(t3) as u64,
                                                        device,
                                                        inode: dec_val(t5) as u64,
                                                        pathname: if p.len() == 0 {
                                                            Option::None
                                                        } else {
                                                            Option::Some(p)
                                                        },
                                                    },
                                                )
                                            }
                                        },
                                    }
                                }
                            }
                        },
                    }
                }
            },
        }
    }
}

/// Law: a parsed line never carries an inverted interval — a line whose
/// `start` exceeds its `end` is rejected, never silently normalized.
pub proof fn lemma_parsed_line_wf(line: Seq<u8>)
    ensures
        spec_parse_line(line) matches Result::Ok(m) ==> m.wf(),
{
}

/// Law: for a syntactically valid map line, parsing and then
/// re-serializing the start address reproduces its hex digits,
/// case-insensitively.  `line` is any line the grammar accepts whose
/// start-address digits carry no redundant leading zero (the one input
/// shape a canonical rendering cannot reproduce), and `rendered` is any
/// canonical lowercase rendering of the parsed start address — such as
/// what `to_hex_bytes` returns for it.  Then `rendered` is the original
/// digit string with its uppercase digits lowered.  The same holds of the
/// end address with `digits` taken after the dash.
pub proof fn lemma_line_address_round_trip(line: Seq<u8>, rendered: Seq<u8>)
    requires
        spec_parse_line(line) is Ok,
        ({
            let t = first_tok(line);
            let digits = t.take(find_byte(t, 45));
            digits.len() > 1 ==> digits[0] != 48
        }),
        canonical_hex(rendered),
        hex_val(rendered) == spec_parse_line(line)->Ok_0.address.start,
    ensures
        ({
            let t = first_tok(line);
            rendered == lower_hex_of(t.take(find_byte(t, 45)))
        }),
{
    let t = first_tok(line);
    let digits = t.take(find_byte(t, 45));
    assert(valid_hex_u64(digits));
    assert(spec_parse_line(line)->Ok_0.address.start == hex_val(digits));
    lemma_hex_round_trip(digits, rendered);
}

proof fn lemma_drop_blanks_step(s: Seq<u8>, i: int, j: int)
    requires
        0 <= i < j <= s.len(),
        is_blank(s[i]),
    ensures
        drop_blanks(s.skip(i)) == drop_blanks(s.skip(i + 1)),
{
    assert(s.skip(i).len() > 0 && s.skip(i)[0] == s[i]);
    assert(s.skip(i).skip(1) =~= s.skip(i + 1));
}

/// Position after the leading run of blanks, starting at `from`.
fn skip_blanks_from(line: &[u8], from: usize) -> (i: usize)
    requires
        from <= line@.len(),
    ensures
        from <= i <= line@.len(),
        drop_blanks(line@.skip(from as int)) == line@.skip(i as int),
    decreases line@.len() - from,
{
    let mut i = from;
    while i < line.len() && (line[i] == 32 || line[i] == 9)
        invariant
            from <= i <= line@.len(),
            drop_blanks(line@.skip(from as int)) == drop_blanks(line@.skip(i as int)),
        decreases line@.len() - i,
    {
        proof {
            lemma_drop_blanks_step(line@, i as int, i + 1);
        }
        i = i + 1;
    }
    proof {
        if i < line@.len() {
            assert(line@.skip(i as int)[0] == line@[i as int]);
            assert(!is_blank(line@.skip(i as int)[0]));
        } else {
            assert(line@.skip(i as int).len() == 0);
        }
    }
    i
}

/// End of the token that starts at `start`.
fn token_end_from(line: &[u8], start: usize) -> (e: usize)
    requires
        start <= line@.len(),
    ensures
        start <= e <= line@.len(),
        tok_len(line@.skip(start as int)) == e - start,
    decreases line@.len() - start,
{
    let mut e = start;
    while e < line.len() && !(line[e] == 32 || line[e] == 9)
        invariant
            start <= e <= line@.len(),
            tok_len(line@.skip(start as int)) == (e - start) + tok_len(line@.skip(e as int)),
        decreases line@.len() - e,
    {
        proof {
            assert(line@.skip(e as int).len() > 0);
            assert(line@.skip(e as int)[0] == line@[e as int]);
            assert(line@.skip(e as int).skip(1) =~= line@.skip(e + 1));
        }
        e = e + 1;
    }
    proof {
        if e < line@.len() {
            assert(line@.skip(e as int)[0] == line@[e as int]);
            assert(tok_len(line@.skip(e as int)) == 0);
        } else {
            assert(line@.skip(e as int).len() == 0);
        }
    }
    e
}

/// First occurrence of `b` in `s`, matching `find_byte`.
fn find_byte_in(s: &[u8], b: u8) -> (r: Option<usize>)
    ensures
        r is Some <==> find_byte(s@, b) >= 0,
        r is Some ==> r->0 == find_byte(s@, b) && r->0 < s@.len(),
{
    let mut i: usize = 0;
    while i < s.len()
        invariant
            0 <= i <= s@.len(),
            forall|j: int| 0 <= j < i ==> s@[j] != b,
        decreases s@.len() - i,
    {
        if s[i] == b {
            proof {
                lemma_find_byte(s@, b);
                let f = find_byte(s@, b);
                assert(f >= 0);
                if f < i as int {
                    assert(s@[f] != b);
                }
                if f > i as int {
                    assert(s@[i as int] != b);
                }
            }
            return Some(i);
        }
        i = i + 1;
    }
    proof {
        lemma_find_byte(s@, b);
        if find_byte(s@, b) >= 0 {
            assert(s@[find_byte(s@, b)] != b);
        }
    }
    None
}

/// The address field, exec counterpart of `spec_parse_address`.
fn parse_address_field(tok: &[u8]) -> (r: Result<AddressRange, ParseReason>)
    ensures
        r == spec_parse_address(tok@),
{
    match find_byte_in(tok, 45) {
        None => Result::Err(ParseReason::BadAddress),
        Some(di) => {
            proof {
                lemma_find_byte(tok@, 45);
            }
            let n = tok.len();
            let s1 = slice_subrange(tok, 0, di);
            let s2 = slice_subrange(tok, di + 1, n);
            proof {
                assert(s1@ =~= tok@.take(di as int));
                assert(s2@ =~= tok@.skip(di + 1));
            }
            match (parse_hex_u64(s1), parse_hex_u64(s2)) {
                (Some(start), Some(end)) => {
                    if start > end {
                        Result::Err(ParseReason::InvertedRange)
                    } else {
                        Result::Ok(AddressRange { start, end })
                    }
                },
                _ => Result::Err(ParseReason::BadAddress),
            }
        },
    }
}

/// The device field, exec counterpart of `spec_parse_device`.
fn parse_device_field(tok: &[u8]) -> (r: Result<DeviceId, ParseReason>)
    ensures
        r == spec_parse_device(tok@),
{
    match find_byte_in(tok, 58) {
        None => Result::Err(ParseReason::BadDevice),
        Some(ci) => {
            proof {
                lemma_find_byte(tok@, 58);
            }
            let n = tok.len();
            let s1 = slice_subrange(tok, 0, ci);
            let s2 = slice_subrange(tok, ci + 1, n);
            proof {
                assert(s1@ =~= tok@.take(ci as int));
                assert(s2@ =~= tok@.skip(ci + 1));
            }
            match (parse_hex_u32(s1), parse_hex_u32(s2)) {
                (Some(major), Some(minor)) => Result::Ok(DeviceId { major, minor }),
                _ => Result::Err(ParseReason::BadDevice),
            }
        },
    }
}

/// The permission field, exec counterpart of `spec_parse_permissions`.
fn parse_permissions_field(tok: &[u8]) -> (r: Result<Permissions, ParseReason>)
    ensures
        r == spec_parse_permissions(tok@),
{
    if tok.len() != 4 {
        Result::Err(ParseReason::BadPermissions)
    } else {
        Result::Ok(
            Permissions {
                read: tok[0] != 45,
                write: tok[1] != 45,
                execute: tok[2] != 45,
                shared: tok[3] == 115,
                private: tok[3] == 112,
            },
        )
    }
}

/// One line of the listing, parsed exactly as `spec_parse_line` says.
#[verifier::rlimit(60)]
pub fn parse_line(line: &[u8]) -> (r: Result<MemoryRegion, ParseReason>)
    ensures
        r is Ok <==> spec_parse_line(line@) is Ok,
        r matches Result::Ok(region) ==> Result::<RegionModel, ParseReason>::Ok(region@)
            == spec_parse_line(line@),
        r matches Result::Err(e) ==> Result::<RegionModel, ParseReason>::Err(e)
            == spec_parse_line(line@),
{
    proof {
        assert(line@.skip(0) =~= line@);
    }
    let i1 = skip_blanks_from(line, 0);
    let e1 = token_end_from(line, i1);
    proof {
        assert(first_tok(line@) =~= line@.subrange(i1 as int, e1 as int));
        assert(after_tok(line@) =~= line@.skip(e1 as int));
    }
    if e1 == i1 {
        return Result::Err(ParseReason::MissingField);
    }
    let t1 = slice_subrange(line, i1, e1);
    let address = match parse_address_field(t1) {
        Result::Err(e) => {
            return Result::Err(e);
        },
        Result::Ok(a) => a,
    };

    let i2 = skip_blanks_from(line, e1);
    let e2 = token_end_from(line, i2);
    proof {
        assert(first_tok(line@.skip(e1 as int)) =~= line@.subrange(i2 as int, e2 as int));
        assert(after_tok(line@.skip(e1 as int)) =~= line@.skip(e2 as int));
    }
    if e2 == i2 {
        return Result::Err(ParseReason::MissingField);
    }
    let t2 = slice_subrange(line, i2, e2);
    let permissions = match parse_permissions_field(t2) {
        Result::Err(e) => {
            return Result::Err(e);
        },
        Result::Ok(p) => p,
    };

    let i3 = skip_blanks_from(line, e2);
    let e3 = token_end_from(line, i3);
    proof {
        assert(first_tok(line@.skip(e2 as int)) =~= line@.subrange(i3 as int, e3 as int));
        assert(after_tok(line@.skip(e2 as int)) =~= line@.skip(e3 as int));
    }
    if e3 == i3 {
        return Result::Err(ParseReason::MissingField);
    }
    let t3 = slice_subrange(line, i3, e3);
    let offset = match parse_hex_u64(t3) {
        None => {
            return Result::Err(ParseReason::BadOffset);
        },
        Some(v) => v,
    };

    let i4 = skip_blanks_from(line, e3);
    let e4 = token_end_from(line, i4);
    proof {
        assert(first_tok(line@.skip(e3 as int)) =~= line@.subrange(i4 as int, e4 as int));
        assert(after_tok(line@.skip(e3 as int)) =~= line@.skip(e4 as int));
    }
    if e4 == i4 {
        return Result::Err(ParseReason::MissingField);
    }
    let t4 = slice_subrange(line, i4, e4);
    let device = match parse_device_field(t4) {
        Result::Err(e) => {
            return Result::Err(e);
        },
        Result::Ok(d) => d,
    };

    let i5 = skip_blanks_from(line, e4);
    let e5 = token_end_from(line, i5);
    proof {
        assert(first_tok(line@.skip(e4 as int)) =~= line@.subrange(i5 as int, e5 as int));
        assert(after_tok(line@.skip(e4 as int)) =~= line@.skip(e5 as int));
    }
    if e5 == i5 {
        return Result::Err(ParseReason::MissingField);
    }
    let t5 = slice_subrange(line, i5, e5);
    let inode = match parse_dec_u64(t5) {
        None => {
            return Result::Err(ParseReason::BadInode);
        },
        Some(v) => v,
    };

    let p0 = skip_blanks_from(line, e5);
    proof {
        assert(drop_blanks(line@.skip(e5 as int)) =~= line@.subrange(p0 as int, line@.len() as int));
    }
    let pathname = if p0 == line.len() {
        Option::None
    } else {
        Option::Some(slice_to_vec(slice_subrange(line, p0, line.len())))
    };

    let region = MemoryRegion { address, permissions, offset, device, inode, pathname };
    proof {
        assert(region@ == spec_parse_line(line@)->Ok_0);
    }
    Result::Ok(region)
}

/// The whole listing, split at newlines, each line parsed in order,
/// numbered from `lineno`; the first failing line aborts the parse.  A
/// final newline closes the last line rather than opening an empty one.
pub open spec fn spec_parse_table_from(text: Seq<u8>, lineno: nat) -> Result<
    Seq<RegionModel>,
    ErrModel,
>
    decreases text.len(),
    via spec_parse_table_from_decreases
{
    if text.len() == 0 {
        Result::Ok(Seq::empty())
    } else {
        let nl = find_byte(text, 10);
        let cur = if nl < 0 {
            text
        } else {
            text.take(nl)
        };
        let rest = if nl < 0 {
            Seq::<u8>::empty()
        } else {
            text.skip(nl + 1)
        };
        match spec_parse_line(cur) {
            Result::Err(reason) => Result::Err(
                ErrModel { line_number: lineno, raw_line: cur, reason },
            ),
            Result::Ok(m) => match spec_parse_table_from(rest, lineno + 1) {
                Result::Err(e) => Result::Err(e),
                Result::Ok(t) => Result::Ok(seq![m] + t),
            },
        }
    }
}

#[via_fn]
proof fn spec_parse_table_from_decreases(text: Seq<u8>, lineno: nat) {
    if text.len() > 0 {
        lemma_find_byte(text, 10);
    }
}

/// The listing as handed to `parse`: lines numbered from one.
pub open spec fn spec_parse_table(text: Seq<u8>) -> Result<Seq<RegionModel>, ErrModel> {
    spec_parse_table_from(text, 1)
}

/// The models of a table's rows, in table order.
pub open spec fn table_models(t: Seq<MemoryRegion>) -> Seq<RegionModel> {
    t.map(|i: int, r: MemoryRegion| r@)
}

/// Law: every region of a successfully parsed listing is well-formed —
/// in particular its address interval is never inverted.
pub proof fn lemma_parse_table_wf(text: Seq<u8>, lineno: nat)
    ensures
        spec_parse_table_from(text, lineno) matches Result::Ok(t) ==> forall|i: int|
            0 <= i < t.len() ==> (#[trigger] t[i]).wf(),
    decreases text.len(),
{
    if text.len() > 0 {
        lemma_find_byte(text, 10);
        let nl = find_byte(text, 10);
        let cur = if nl < 0 {
            text
        } else {
            text.take(nl)
        };
        let rest = if nl < 0 {
            Seq::<u8>::empty()
        } else {
            text.skip(nl + 1)
        };
        lemma_parsed_line_wf(cur);
        lemma_parse_table_wf(rest, lineno + 1);
        if spec_parse_line(cur) is Ok && spec_parse_table_from(rest, lineno + 1) is Ok {
            let m = spec_parse_line(cur)->Ok_0;
            let t = spec_parse_table_from(rest, lineno + 1)->Ok_0;
            assert forall|i: int| 0 <= i < (seq![m] + t).len() implies (#[trigger] (seq![m]
                + t)[i]).wf() by {
                if i > 0 {
                    assert((seq![m] + t)[i] == t[i - 1]);
                }
            }
        }
    }
}

/// `prefix` rows already parsed, joined with what the rest of the text
/// yields.
spec fn join_parsed(prefix: Seq<RegionModel>, r: Result<Seq<RegionModel>, ErrModel>) -> Result<
    Seq<RegionModel>,
    ErrModel,
> {
    match r {
        Result::Ok(t) => Result::Ok(prefix + t),
        Result::Err(e) => Result::Err(e),
    }
}

/// First occurrence of `b` at or after `from`, matching `find_byte` on
/// the tail.
fn find_byte_from(s: &[u8], from: usize, b: u8) -> (r: Option<usize>)
    requires
        from <= s@.len(),
    ensures
        r is Some <==> find_byte(s@.skip(from as int), b) >= 0,
        r is Some ==> from <= r->0 < s@.len() && r->0 - from == find_byte(
            s@.skip(from as int),
            b,
        ),
{
    let mut i: usize = from;
    while i < s.len()
        invariant
            from <= i <= s@.len(),
            forall|j: int| from <= j < i ==> s@[j] != b,
        decreases s@.len() - i,
    {
        if s[i] == b {
            proof {
                lemma_find_byte(s@.skip(from as int), b);
                let f = find_byte(s@.skip(from as int), b);
                assert(s@.skip(from as int)[i - from] == s@[i as int]);
                assert(f >= 0);
                if f < i - from {
                    assert(s@[f + from] == s@.skip(from as int)[f]);
                    assert(s@[f + from] != b);
                }
                if f > i - from {
                    assert(s@.skip(from as int)[i - from] != b);
                }
            }
            return Some(i);
        }
        i = i + 1;
    }
    proof {
        lemma_find_byte(s@.skip(from as int), b);
        let f = find_byte(s@.skip(from as int), b);
        if f >= 0 {
            assert(s@[f + from] == s@.skip(from as int)[f]);
            assert(s@[f + from] != b);
        }
    }
    None
}

/// Parse the verbatim contents of the map listing into an ordered region
/// table.  Strict: the result is `Ok` exactly when every line matches the
/// grammar, and otherwise reports the first offending line verbatim with
/// its one-based number; every returned region is well-formed.
pub fn parse(text: &[u8]) -> (r: Result<Vec<MemoryRegion>, ParseError>)
    ensures
        r is Ok <==> spec_parse_table(text@) is Ok,
        r matches Result::Ok(t) ==> table_models(t@) == spec_parse_table(text@)->Ok_0,
        r matches Result::Ok(t) ==> forall|i: int|
            0 <= i < t@.len() ==> (#[trigger] t@[i]).wf(),
        r matches Result::Err(e) ==> Result::<Seq<RegionModel>, ErrModel>::Err(e@)
            == spec_parse_table(text@),
{
    let mut out: Vec<MemoryRegion> = Vec::new();
    let mut pos: usize = 0;
    let mut lineno: usize = 1;
    let ghost mut gline: nat = 1;
    proof {
        assert(text@.skip(0) =~= text@);
        if spec_parse_table_from(text@, 1) is Ok {
            assert(Seq::<RegionModel>::empty() + spec_parse_table_from(text@, 1)->Ok_0
                =~= spec_parse_table_from(text@, 1)->Ok_0);
        }
        assert(table_models(out@) =~= Seq::<RegionModel>::empty());
    }
    while pos < text.len()
        invariant
            pos <= text@.len(),
            gline <= pos + 1,
            gline <= usize::MAX ==> lineno == gline,
            spec_parse_table(text@) == join_parsed(
                table_models(out@),
                spec_parse_table_from(text@.skip(pos as int), gline),
            ),
            forall|i: int| 0 <= i < out@.len() ==> (#[trigger] out@[i]).wf(),
        decreases text@.len() - pos,
    {
        let ghost tail = text@.skip(pos as int);
        let ghost nl_spec = find_byte(tail, 10);
        proof {
            lemma_find_byte(tail, 10);
        }
        let (line_end, next_pos) = match find_byte_from(text, pos, 10) {
            Some(i) => (i, i + 1),
            None => (text.len(), text.len()),
        };
        let ghost cur = if nl_spec < 0 {
            tail
        } else {
            tail.take(nl_spec)
        };
        let ghost rest = if nl_spec < 0 {
            Seq::<u8>::empty()
        } else {
            tail.skip(nl_spec + 1)
        };
        let line = slice_subrange(text, pos, line_end);
        proof {
            assert(line@ =~= cur);
            assert(rest =~= text@.skip(next_pos as int));
        }
        match parse_line(line) {
            Result::Err(reason) => {
                proof {
                    assert(gline <= usize::MAX);
                }
                let e = ParseError {
                    line_number: lineno,
                    raw_line: slice_to_vec(line),
                    reason,
                };
                proof {
                    assert(spec_parse_table_from(tail, gline) == Result::<
                        Seq<RegionModel>,
                        ErrModel,
                    >::Err(ErrModel { line_number: gline, raw_line: cur, reason }));
                }
                return Result::Err(e);
            },
            Result::Ok(region) => {
                let ghost m = region@;
                let ghost prev = out@;
                proof {
                    lemma_parsed_line_wf(cur);
                }
                out.push(region);
                proof {
                    assert(table_models(out@) =~= table_models(prev) + seq![m]);
                    if spec_parse_table_from(rest, gline + 1) is Ok {
                        let t = spec_parse_table_from(rest, gline + 1)->Ok_0;
                        assert(spec_parse_table_from(tail, gline) == Result::<
                            Seq<RegionModel>,
                            ErrModel,
                        >::Ok(seq![m] + t));
                        assert((table_models(prev) + seq![m]) + t =~= table_models(prev) + (
                        seq![m] + t));
                    }
                    gline = gline + 1;
                }
                if lineno < usize::MAX {
                    lineno = lineno + 1;
                }
                pos = next_pos;
            },
        }
    }
    proof {
        assert(text@.skip(pos as int).len() == 0);
        assert(spec_parse_table_from(text@.skip(pos as int), gline) == Result::<
            Seq<RegionModel>,
            ErrModel,
        >::Ok(Seq::<RegionModel>::empty()));
        assert(table_models(out@) + Seq::<RegionModel>::empty() =~= table_models(out@));
    }
    Result::Ok(out)
}

} // verus!
