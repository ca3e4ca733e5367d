//! Input module: the memory regions and the text format they are read from.
//!
//! A memory map is a text with one region per line:
//!
//! ```text
//!   [pa00_0020_0000 - pa00_0020_7260) |  29 KiB | (Free) C   RW PXN | RAM
//! ```
//!
//! Implement `MemorySource` to feed live data instead of a text file.
use crate::text::{
    chars_of, decimal, find_char, pieces, push_decimal, push_range, range_eq, word_ranges, find_first, join_spaced, push_char, push_str, remove_char, split_on, split_ranges,
    string_of, strip_end, strip_end_range, strip_start, strip_start_range, trim, trim_range, words,
};
use vstd::prelude::*;

verus! {

/// Status of a memory region.
#[derive(Debug, Clone, Copy, PartialEq, Eq, Hash, Structural)]
pub enum RegionStatus {
    Free,
    Used,
    Drop,
}

/// Cache / memory type attribute.
#[derive(Debug, Clone, Copy, PartialEq, Eq, Hash, Structural)]
pub enum MemoryType {
    Cached,
    Device,
}

/// A single memory region entry.
#[derive(Debug)]
pub struct MemoryRegion {
    pub start: u64,
    pub end: u64,
    pub status: RegionStatus,
    pub mem_type: MemoryType,
    pub permissions: String,
    pub name: String,
}

/// What a `MemoryRegion` holds, with its texts as character sequences.
pub struct RegionSpec {
    pub start: u64,
    pub end: u64,
    pub status: RegionStatus,
    pub mem_type: MemoryType,
    pub permissions: Seq<char>,
    pub name: Seq<char>,
}

impl View for MemoryRegion {
    type V = RegionSpec;

    open spec fn view(&self) -> RegionSpec {
        RegionSpec {
            start: self.start,
            end: self.end,
            status: self.status,
            mem_type: self.mem_type,
            permissions: self.permissions@,
            name: self.name@,
        }
    }
}

impl Clone for MemoryRegion {
    fn clone(&self) -> (r: Self)
        ensures
            r@ == self@,
    {
        MemoryRegion {
            start: self.start,
            end: self.end,
            status: self.status,
            mem_type: self.mem_type,
            permissions: self.permissions.clone(),
            name: self.name.clone(),
        }
    }
}

impl MemoryRegion {
    /// Size in bytes: `end - start`, or 0 when `end` lies below `start`.
    pub fn size(&self) -> (r: u64)
        ensures
            r == (if self.end >= self.start {
                self.end - self.start
            } else {
                0
            }),
    {
        self.end.saturating_sub(self.start)
    }
}

/// Trait for providing memory region data.
/// Implement this to plug in live data sources.
pub trait MemorySource {
    fn load(&mut self) -> Result<Vec<MemoryRegion>, String>;
}

/// Names a text file of memory regions.
pub struct FileSource {
    path: String,
}

impl FileSource {
    /// The path that this source reads.
    pub closed spec fn location(&self) -> Seq<char> {
        self.path@
    }

    pub fn new(path: &str) -> (r: Self)
        ensures
            r.location() == path@,
    {
        FileSource { path: path.to_owned() }
    }

    pub fn path(&self) -> (r: &str)
        ensures
            r@ == self.location(),
    {
        self.path.as_str()
    }
}

// ── The text format ─────────────────────────────────────────────────────────

/// A hexadecimal digit (either case).
pub open spec fn is_hex_digit(c: char) -> bool {
    ('0' <= c <= '9') || ('a' <= c <= 'f') || ('A' <= c <= 'F')
}

/// Value of a hexadecimal digit.
pub open spec fn hex_digit_value(c: char) -> nat {
    if '0' <= c <= '9' {
        (c as nat - '0' as nat) as nat
    } else if 'a' <= c <= 'f' {
        (c as nat - 'a' as nat + 10) as nat
    } else {
        (c as nat - 'A' as nat + 10) as nat
    }
}

/// Value of a sequence of hexadecimal digits, most significant first.
pub open spec fn hex_value(s: Seq<char>) -> nat
    decreases s.len(),
{
    if s.len() == 0 {
        0
    } else {
        hex_value(s.drop_last()) * 16 + hex_digit_value(s.last())
    }
}

/// The digits of a number written with an optional leading `+`.
pub open spec fn unsigned_digits(s: Seq<char>) -> Seq<char> {
    if s.len() > 0 && s[0] == '+' {
        s.drop_first()
    } else {
        s
    }
}

/// `s` is a hexadecimal number that fits in a `u64`: an optional `+`, then
/// at least one hexadecimal digit and nothing else.
pub open spec fn is_hex_u64(s: Seq<char>) -> bool {
    let d = unsigned_digits(s);
    &&& d.len() > 0
    &&& forall|i: int| 0 <= i < d.len() ==> is_hex_digit(#[trigger] d[i])
    &&& hex_value(d) <= u64::MAX
}

/// The text of the error that `u64::from_str_radix(s, 16)` reports for a
/// text `s` that it refuses.
pub uninterp spec fn hex_u64_error_text(s: Seq<char>) -> Seq<char>;

/// Reads `s` as a hexadecimal `u64` with `u64::from_str_radix(s, 16)`.
/// The contract states which texts it accepts and the value it gives them;
/// the text of its error is named, not stated.
#[verifier::external_body]
fn parse_hex_u64(s: &str) -> (r: Result<u64, String>)
    ensures
        r is Ok <==> is_hex_u64(s@),
        r matches Ok(v) ==> v as nat == hex_value(unsigned_digits(s@)),
        r matches Err(e) ==> e@ == hex_u64_error_text(s@),
{
    match u64::from_str_radix(s, 16) {
        Ok(v) => Ok(v),
        Err(e) => Err(e.to_string()),
    }
}

/// `s` without any of its leading `pa` prefixes.
pub open spec fn strip_pa(s: Seq<char>) -> Seq<char>
    decreases s.len(),
{
    if s.len() >= 2 && s[0] == 'p' && s[1] == 'a' {
        strip_pa(s.skip(2))
    } else {
        s
    }
}

/// An address such as `pa00_0040_3800`: an optional run of `pa` prefixes,
/// then hexadecimal digits with any number of `_` separators.
pub open spec fn spec_parse_pa_address(s: Seq<char>) -> Result<u64, Seq<char>> {
    let h = remove_char(strip_pa(s), '_');
    if is_hex_u64(h) {
        Ok(hex_value(unsigned_digits(h)) as u64)
    } else {
        Err("bad address '"@ + s + "': "@ + hex_u64_error_text(h))
    }
}

/// An address range such as `[pa00_0020_0000 - pa00_0020_7260)`: leading `[`
/// and trailing `)` are dropped, the first two `-`-separated fields are the
/// start and the end.
pub open spec fn spec_parse_address_range(s: Seq<char>) -> Result<(u64, u64), Seq<char>> {
    let fields = split_on(strip_end(strip_start(s, '['), ')'), '-');
    if fields.len() < 2 {
        Err("missing end address"@)
    } else {
        match spec_parse_pa_address(trim(fields[0])) {
            Err(e) => Err(e),
            Ok(start) => match spec_parse_pa_address(trim(fields[1])) {
                Err(e) => Err(e),
                Ok(end) => Ok((start, end)),
            },
        }
    }
}

/// Attributes such as `(Free) C   RW PXN` whose first `)` comes before their
/// first `(`: reading them does not finish.
pub open spec fn attributes_abort(s: Seq<char>) -> bool {
    &&& find_first(s, '(') is Some
    &&& find_first(s, ')') is Some
    &&& find_first(s, ')')->0 < find_first(s, '(')->0
}

/// The status named between the parentheses.
pub open spec fn status_named(t: Seq<char>) -> Option<RegionStatus> {
    if t == "Free"@ {
        Some(RegionStatus::Free)
    } else if t == "Used"@ {
        Some(RegionStatus::Used)
    } else if t == "Drop"@ {
        Some(RegionStatus::Drop)
    } else {
        None
    }
}

/// The memory type named by the first word after the parentheses.
pub open spec fn memory_type_named(t: Seq<char>) -> Option<MemoryType> {
    if t == "C"@ {
        Some(MemoryType::Cached)
    } else if t == "Dev"@ {
        Some(MemoryType::Device)
    } else {
        None
    }
}

/// Attributes such as `(Free) C   RW PXN`: the status between the first `(`
/// and the first `)`, then the memory type as the first word, then the
/// permissions as the remaining words joined by single spaces.
pub open spec fn spec_parse_attributes(s: Seq<char>) -> Result<(RegionStatus, MemoryType, Seq<char>), Seq<char>> {
    match find_first(s, '(') {
        None => Err("missing '('"@),
        Some(a) => match find_first(s, ')') {
            None => Err("missing ')'"@),
            Some(b) => {
                let status_text = s.subrange(a + 1, b);
                let ws = words(trim(s.subrange(b + 1, s.len() as int)));
                let type_text = if ws.len() > 0 {
                    ws[0]
                } else {
                    Seq::<char>::empty()
                };
                match status_named(status_text) {
                    None => Err("unknown status: "@ + status_text),
                    Some(status) => match memory_type_named(type_text) {
                        None => Err("unknown memory type: "@ + type_text),
                        Some(mem_type) => Ok((status, mem_type, join_spaced(ws.drop_first()))),
                    },
                }
            },
        },
    }
}


/// The name of a status as the map text writes it between parentheses.
pub open spec fn status_name(s: RegionStatus) -> Seq<char> {
    match s {
        RegionStatus::Free => "Free"@,
        RegionStatus::Used => "Used"@,
        RegionStatus::Drop => "Drop"@,
    }
}

/// The code of a memory type as the map text writes it.
pub open spec fn memory_type_code(m: MemoryType) -> Seq<char> {
    match m {
        MemoryType::Cached => "C"@,
        MemoryType::Device => "Dev"@,
    }
}

proof fn lemma_attribute_parts(n: Seq<char>, t: Seq<char>)
    requires
        forall|k: int| 0 <= k < n.len() ==> #[trigger] n[k] != ')',
        t.len() > 0,
        forall|k: int| 0 <= k < t.len() ==> !crate::text::is_ws(#[trigger] t[k]),
    ensures
        ({
            let x = "("@ + n + ") "@ + t + "   RW  PXN"@;
            &&& find_first(x, '(') == Some(0int)
            &&& find_first(x, ')') == Some(n.len() as int + 1)
            &&& x.subrange(1, n.len() as int + 1) == n
            &&& words(trim(x.subrange(n.len() as int + 2, x.len() as int))) == seq![t, "RW"@, "PXN"@]
        }),
{
    reveal_strlit("(");
    reveal_strlit(") ");
    reveal_strlit("   RW  PXN");
    reveal_strlit("RW");
    reveal_strlit("PXN");
    let x = "("@ + n + ") "@ + t + "   RW  PXN"@;
    let sp3 = seq![' ', ' ', ' '];
    let sp2 = seq![' ', ' '];
    let rw = "RW"@;
    let pxn = "PXN"@;
    let tail = "   RW  PXN"@;
    assert(tail == sp3 + rw + sp2 + pxn);
    assert(x[0] == '(');
    crate::text::lemma_find_first_at(x, '(', 0);
    assert(x[n.len() as int + 1] == ')');
    assert forall|j: int| 0 <= j < n.len() as int + 1 implies x[j] != ')' by {
        if j > 0 {
            assert(x[j] == n[j - 1]);
        }
    }
    crate::text::lemma_find_first_at(x, ')', n.len() as int + 1);
    assert(x.subrange(1, n.len() as int + 1) == n);
    let u = t + tail;
    assert(x.subrange(n.len() as int + 2, x.len() as int) == seq![' '] + u);
    assert(u[0] == t[0]);
    assert(u.last() == 'N');
    crate::text::lemma_trim_leading_space(u);
    let y1 = t + sp3;
    let y2 = y1 + rw;
    let y3 = y2 + sp2;
    assert(u == y3 + pxn);
    assert(Seq::<char>::empty() + t == t);
    crate::text::lemma_words_push_word(Seq::<char>::empty(), t);
    assert(words(Seq::<char>::empty()) == Seq::<Seq<char>>::empty());
    crate::text::lemma_words_trailing_ws(t, sp3);
    assert(y1.last() == ' ');
    crate::text::lemma_words_push_word(y1, rw);
    crate::text::lemma_words_trailing_ws(y2, sp2);
    assert(y3.last() == ' ');
    crate::text::lemma_words_push_word(y3, pxn);
    assert(words(u) == seq![t].push(rw).push(pxn));
    assert(seq![t].push(rw).push(pxn) == seq![t, rw, pxn]);
}

/// Attributes written as `(`, a status name, `) `, a memory type name and
/// `   RW  PXN` read back as that status and type, with the permission
/// words joined by single spaces.
pub proof fn law_attributes_round_trip(st: RegionStatus, m: MemoryType)
    ensures
        spec_parse_attributes("("@ + status_name(st) + ") "@ + memory_type_code(m) + "   RW  PXN"@)
            == Ok::<(RegionStatus, MemoryType, Seq<char>), Seq<char>>((st, m, "RW PXN"@)),
{
    reveal_strlit("Free");
    reveal_strlit("Used");
    reveal_strlit("Drop");
    reveal_strlit("C");
    reveal_strlit("Dev");
    reveal_strlit("RW");
    reveal_strlit("PXN");
    reveal_strlit("RW PXN");
    let n = status_name(st);
    let t = memory_type_code(m);
    assert(forall|k: int| 0 <= k < n.len() ==> #[trigger] n[k] != ')');
    assert(forall|k: int| 0 <= k < t.len() ==> !crate::text::is_ws(#[trigger] t[k]));
    lemma_attribute_parts(n, t);
    match st {
        RegionStatus::Free => {},
        RegionStatus::Used => {
            assert("Used"@[0] != "Free"@[0]);
        },
        RegionStatus::Drop => {
            assert("Drop"@[0] != "Free"@[0]);
            assert("Drop"@[0] != "Used"@[0]);
        },
    }
    assert(status_named(n) == Some(st));
    assert(memory_type_named(t) == Some(m));
    let ws = seq![t, "RW"@, "PXN"@];
    assert(ws.drop_first() == seq!["RW"@, "PXN"@]);
    let ps = seq!["RW"@, "PXN"@];
    assert(ps.drop_last() == seq!["RW"@]);
    assert(join_spaced(seq!["RW"@]) == "RW"@);
    assert(join_spaced(ps) == "RW"@ + seq![' '] + "PXN"@);
    assert("RW"@ + seq![' '] + "PXN"@ == "RW PXN"@);
}

proof fn lemma_hex_char_digit(d: int)
    requires
        0 <= d < 16,
    ensures
        is_hex_digit(crate::text::hex_char(d)),
        hex_digit_value(crate::text::hex_char(d)) == d,
        crate::text::hex_char(d) != 'p',
        crate::text::hex_char(d) != '+',
        crate::text::hex_char(d) != '_',
{
}

/// The hexadecimal digits of `n` are digits, at least one, and read back as `n`.
proof fn lemma_hex_digits_value(n: nat)
    ensures
        crate::colors::hex_digits(n).len() > 0,
        forall|k: int| 0 <= k < crate::colors::hex_digits(n).len() ==> is_hex_digit(#[trigger] crate::colors::hex_digits(n)[k]),
        hex_value(crate::colors::hex_digits(n)) == n,
    decreases n,
{
    let dg = crate::colors::hex_digits(n);
    if n < 16 {
        lemma_hex_char_digit(n as int);
        assert(dg.drop_last() == Seq::<char>::empty());
        assert(dg.last() == crate::text::hex_char(n as int));
        assert(hex_value(dg) == hex_value(Seq::<char>::empty()) * 16 + n);
    } else {
        let q = n / 16;
        let r = n % 16;
        lemma_hex_digits_value(q);
        lemma_hex_char_digit(r as int);
        let dq = crate::colors::hex_digits(q);
        assert(dg == dq.push(crate::text::hex_char(r as int)));
        assert(dg.drop_last() == dq);
        assert(q * 16 + r == n);
        assert(dg.last() == crate::text::hex_char(r as int));
        assert(hex_value(dg) == hex_value(dq) * 16 + r);
    }
}

/// Leading `0`s do not change the value of a hexadecimal number.
proof fn lemma_hex_value_leading_zeros(z: nat, dg: Seq<char>)
    ensures
        hex_value(Seq::new(z, |i: int| '0') + dg) == hex_value(dg),
    decreases dg.len() + z,
{
    let zs = Seq::new(z, |i: int| '0');
    if dg.len() == 0 {
        assert(zs + dg == zs);
        if z > 0 {
            let z1 = (z - 1) as nat;
            lemma_hex_value_leading_zeros(z1, dg);
            assert(zs.drop_last() == Seq::new(z1, |i: int| '0'));
            assert(Seq::new(z1, |i: int| '0') + dg == Seq::new(z1, |i: int| '0'));
        }
    } else {
        lemma_hex_value_leading_zeros(z, dg.drop_last());
        assert((zs + dg).drop_last() == zs + dg.drop_last());
        assert((zs + dg).last() == dg.last());
    }
}

/// The digits that `format_addr` writes after `0x`: hexadecimal digits and
/// `_`s, starting and ending with a digit, and read back as the address
/// after a `pa` prefix.
proof fn lemma_address_digits(a: u64)
    ensures
        ({
            let g = crate::colors::spec_format_addr(a).skip(2);
            &&& g.len() > 0
            &&& forall|k: int| 0 <= k < g.len() ==> is_hex_digit(#[trigger] g[k]) || g[k] == '_'
            &&& is_hex_digit(g[0])
            &&& is_hex_digit(g.last())
            &&& spec_parse_pa_address("pa"@ + g) == Ok::<u64, Seq<char>>(a)
        }),
{
    reveal_strlit("pa");
    reveal_strlit("0x");
    let dg = crate::colors::hex_digits(a as nat);
    lemma_hex_digits_value(a as nat);
    let p = crate::colors::zero_pad(dg, 12);
    if dg.len() < 12 {
        let z = (12 - dg.len()) as nat;
        lemma_hex_value_leading_zeros(z, dg);
        assert forall|k: int| 0 <= k < p.len() implies is_hex_digit(#[trigger] p[k]) by {
            if k >= z {
                assert(p[k] == dg[k - z]);
            }
        }
    }
    assert(hex_value(p) == a);
    assert(p.len() > 0);
    assert(forall|k: int| 0 <= k < p.len() ==> is_hex_digit(#[trigger] p[k]));
    assert(forall|k: int| 0 <= k < p.len() ==> #[trigger] p[k] != '_');
    crate::colors::lemma_group4_parts(p);
    crate::colors::lemma_group4_chars(p);
    let g = crate::colors::group4(p);
    assert(crate::colors::spec_format_addr(a).skip(2) == g);
    let s = "pa"@ + g;
    assert(s.skip(2) == g);
    assert(is_hex_digit(g[0]));
    assert(strip_pa(g) == g);
    assert(strip_pa(s) == g);
    assert(remove_char(strip_pa(s), '_') == p);
    assert(unsigned_digits(p) == p);
    assert(is_hex_u64(p));
}

/// An address written by `format_addr`, with its `0x` replaced by `pa`,
/// reads back as the address: the `_` separators and the leading zeros
/// are ignored.
pub proof fn law_address_round_trip(a: u64)
    ensures
        spec_parse_pa_address("pa"@ + crate::colors::spec_format_addr(a).skip(2)) == Ok::<u64, Seq<char>>(a),
{
    lemma_address_digits(a);
}


fn parse_pa_address(s: &str) -> (r: Result<u64, String>)
    ensures
        r matches Ok(v) ==> spec_parse_pa_address(s@) == Ok::<u64, Seq<char>>(v),
        r matches Err(e) ==> spec_parse_pa_address(s@) == Err::<u64, Seq<char>>(e@),
{
    let cs = chars_of(s);
    let n = cs.len();
    let mut a: usize = 0;
    assert(cs@.subrange(0, n as int) == cs@);
    while n - a >= 2 && cs[a] == 'p' && cs[a + 1] == 'a'
        invariant
            a <= n,
            n == cs.len(),
            cs@ == s@,
            strip_pa(s@) == strip_pa(cs@.subrange(a as int, n as int)),
        decreases n - a,
    {
        assert(cs@.subrange(a as int, n as int).skip(2) == cs@.subrange(a + 2, n as int));
        a = a + 2;
    }
    let mut hex = String::new();
    let mut i = a;
    assert(cs@.subrange(a as int, a as int) == Seq::<char>::empty());
    while i < n
        invariant
            a <= i <= n,
            n == cs.len(),
            hex@ == remove_char(cs@.subrange(a as int, i as int), '_'),
        decreases n - i,
    {
        assert(cs@.subrange(a as int, i + 1).drop_last() == cs@.subrange(a as int, i as int));
        if cs[i] != '_' {
            push_char(&mut hex, cs[i]);
        }
        i = i + 1;
    }
    match parse_hex_u64(hex.as_str()) {
        Ok(v) => Ok(v),
        Err(e) => {
            let mut msg = String::new();
            push_str(&mut msg, "bad address '");
            push_str(&mut msg, s);
            push_str(&mut msg, "': ");
            push_str(&mut msg, e.as_str());
            Err(msg)
        },
    }
}

fn parse_address_range(s: &str) -> (r: Result<(u64, u64), String>)
    ensures
        r matches Ok(v) ==> spec_parse_address_range(s@) == Ok::<(u64, u64), Seq<char>>(v),
        r matches Err(e) ==> spec_parse_address_range(s@) == Err::<(u64, u64), Seq<char>>(e@),
{
    let cs = chars_of(s);
    let n = cs.len();
    assert(cs@.subrange(0, n as int) == cs@);
    let a = strip_start_range(&cs, 0, n, '[');
    let b = strip_end_range(&cs, a, n, ')');
    let fields = split_ranges(&cs, a, b, '-');
    if fields.len() < 2 {
        return Err(String::from_str("missing end address"));
    }
    let (s0, e0) = fields[0];
    let (s1, e1) = fields[1];
    let (s0, e0) = trim_range(&cs, s0, e0);
    let (s1, e1) = trim_range(&cs, s1, e1);
    let start_text = string_of(&cs, s0, e0);
    let end_text = string_of(&cs, s1, e1);
    let start = match parse_pa_address(start_text.as_str()) {
        Ok(v) => v,
        Err(e) => {
            return Err(e);
        },
    };
    let end = match parse_pa_address(end_text.as_str()) {
        Ok(v) => v,
        Err(e) => {
            return Err(e);
        },
    };
    Ok((start, end))
}


/// A line of the map with at least four `|`-separated fields whose address
/// range reads, and whose attributes do not finish reading.
pub open spec fn line_aborts(line: Seq<char>) -> bool {
    let p = split_on(line, '|');
    &&& p.len() >= 4
    &&& spec_parse_address_range(trim(p[0])) is Ok
    &&& attributes_abort(trim(p[2]))
}

/// One line of the map: address range, size (not read: the size follows
/// from the addresses), attributes and name, separated by `|`; fields after
/// the fourth are ignored.
pub open spec fn spec_parse_line(line: Seq<char>) -> Result<RegionSpec, Seq<char>> {
    let p = split_on(line, '|');
    if p.len() < 4 {
        Err("expected at least 4 '|'-separated fields"@)
    } else {
        match spec_parse_address_range(trim(p[0])) {
            Err(e) => Err(e),
            Ok(range) => match spec_parse_attributes(trim(p[2])) {
                Err(e) => Err(e),
                Ok(attrs) => Ok(
                    RegionSpec {
                        start: range.0,
                        end: range.1,
                        status: attrs.0,
                        mem_type: attrs.1,
                        permissions: attrs.2,
                        name: trim(p[3]),
                    },
                ),
            },
        }
    }
}

fn parse_attributes(s: &str) -> (r: Result<(RegionStatus, MemoryType, String), String>)
    requires
        !attributes_abort(s@),
    ensures
        r matches Ok(v) ==> spec_parse_attributes(s@) == Ok::<(RegionStatus, MemoryType, Seq<char>), Seq<char>>((v.0, v.1, v.2@)),
        r matches Err(e) ==> spec_parse_attributes(s@) == Err::<(RegionStatus, MemoryType, Seq<char>), Seq<char>>(e@),
{
    let cs = chars_of(s);
    let n = cs.len();
    assert(cs@.subrange(0, n as int) == cs@);
    let a = match find_char(&cs, 0, n, '(') {
        Some(i) => i,
        None => {
            return Err(String::from_str("missing '('"));
        },
    };
    let b = match find_char(&cs, 0, n, ')') {
        Some(i) => i,
        None => {
            return Err(String::from_str("missing ')'"));
        },
    };
    assert(a < b);
    let (r0, r1) = trim_range(&cs, b + 1, n);
    let ws = word_ranges(&cs, r0, r1);
    let ghost wsv = pieces(cs@, ws@);
    let (t0, t1) = if ws.len() > 0 {
        ws[0]
    } else {
        (r0, r0)
    };
    assert(cs@.subrange(t0 as int, t1 as int) == (if wsv.len() > 0 {
        wsv[0]
    } else {
        Seq::<char>::empty()
    }));
    let status = if range_eq(&cs, a + 1, b, "Free") {
        RegionStatus::Free
    } else if range_eq(&cs, a + 1, b, "Used") {
        RegionStatus::Used
    } else if range_eq(&cs, a + 1, b, "Drop") {
        RegionStatus::Drop
    } else {
        let mut msg = String::from_str("unknown status: ");
        push_range(&mut msg, &cs, a + 1, b);
        return Err(msg);
    };
    let mem_type = if range_eq(&cs, t0, t1, "C") {
        MemoryType::Cached
    } else if range_eq(&cs, t0, t1, "Dev") {
        MemoryType::Device
    } else {
        let mut msg = String::from_str("unknown memory type: ");
        push_range(&mut msg, &cs, t0, t1);
        return Err(msg);
    };
    proof {
        reveal_strlit("C");
        reveal_strlit("Dev");
    }
    assert(ws.len() > 0);
    let mut permissions = String::new();
    let mut k: usize = 1;
    assert(wsv.subrange(1, 1) == Seq::<Seq<char>>::empty());
    while k < ws.len()
        invariant
            1 <= k <= ws.len(),
            ws.len() == wsv.len(),
            wsv == pieces(cs@, ws@),
            crate::text::ranges_within(ws@, r0 as int, r1 as int),
            r1 <= cs.len(),
            permissions@ == join_spaced(wsv.subrange(1, k as int)),
        decreases ws.len() - k,
    {
        let (w0, w1) = ws[k];
        assert(wsv.subrange(1, k + 1).drop_last() == wsv.subrange(1, k as int));
        if k > 1 {
            push_char(&mut permissions, ' ');
        }
        push_range(&mut permissions, &cs, w0, w1);
        k = k + 1;
    }
    assert(wsv.subrange(1, wsv.len() as int) == wsv.drop_first());
    Ok((status, mem_type, permissions))
}

/// Parses one line of the map (see `spec_parse_line`).
pub fn parse_line(line: &str) -> (r: Result<MemoryRegion, String>)
    requires
        !line_aborts(line@),
    ensures
        r matches Ok(v) ==> spec_parse_line(line@) == Ok::<RegionSpec, Seq<char>>(v@),
        r matches Err(e) ==> spec_parse_line(line@) == Err::<RegionSpec, Seq<char>>(e@),
{
    let cs = chars_of(line);
    let n = cs.len();
    assert(cs@.subrange(0, n as int) == cs@);
    let parts = split_ranges(&cs, 0, n, '|');
    let ghost pv = pieces(cs@, parts@);
    if parts.len() < 4 {
        return Err(String::from_str("expected at least 4 '|'-separated fields"));
    }
    let (a0, a1) = parts[0];
    let (a0, a1) = trim_range(&cs, a0, a1);
    let (t0, t1) = parts[2];
    let (t0, t1) = trim_range(&cs, t0, t1);
    let (n0, n1) = parts[3];
    let (n0, n1) = trim_range(&cs, n0, n1);
    let addr_part = string_of(&cs, a0, a1);
    let attr_part = string_of(&cs, t0, t1);
    let name = string_of(&cs, n0, n1);
    let (start, end) = match parse_address_range(addr_part.as_str()) {
        Ok(v) => v,
        Err(e) => {
            return Err(e);
        },
    };
    let (status, mem_type, permissions) = match parse_attributes(attr_part.as_str()) {
        Ok(v) => v,
        Err(e) => {
            return Err(e);
        },
    };
    Ok(MemoryRegion { start, end, status, mem_type, permissions, name })
}


// ── Whole maps ──────────────────────────────────────────────────────────────

proof fn lemma_range_field(start: u64, end: u64)
    ensures
        ({
            let f = "[pa"@ + crate::colors::spec_format_addr(start).skip(2) + " - pa"@
                + crate::colors::spec_format_addr(end).skip(2) + ") "@;
            &&& forall|k: int| 0 <= k < f.len() ==> #[trigger] f[k] != '|'
            &&& spec_parse_address_range(trim(f)) == Ok::<(u64, u64), Seq<char>>((start, end))
        }),
{
    reveal_strlit("[pa");
    reveal_strlit(" - pa");
    reveal_strlit(") ");
    reveal_strlit("pa");
    lemma_address_digits(start);
    lemma_address_digits(end);
    let fs = crate::colors::spec_format_addr(start).skip(2);
    let fe = crate::colors::spec_format_addr(end).skip(2);
    let f = "[pa"@ + fs + " - pa"@ + fe + ") "@;
    let p1 = "pa"@ + fs + seq![' '];
    let p2 = seq![' '] + ("pa"@ + fe);
    let r0 = p1 + seq!['-'] + p2;
    let x0 = seq!['['] + r0 + seq![')'];
    assert(f == x0 + seq![' ']);
    assert forall|k: int| 0 <= k < f.len() implies #[trigger] f[k] != '|' by {}
    crate::text::lemma_trim_trailing_space(x0);
    assert(x0.drop_first() == r0 + seq![')']);
    assert(strip_start(r0 + seq![')'], '[') == r0 + seq![')']);
    assert(strip_start(x0, '[') == r0 + seq![')']);
    assert((r0 + seq![')']).drop_last() == r0);
    assert(r0.last() == fe.last());
    assert(strip_end(r0, ')') == r0);
    assert(strip_end(r0 + seq![')'], ')') == r0);
    assert forall|k: int| 0 <= k < p1.len() implies #[trigger] p1[k] != '-' by {}
    assert forall|k: int| 0 <= k < p2.len() implies #[trigger] p2[k] != '-' by {}
    crate::text::lemma_split_on_none(p2, '-');
    crate::text::lemma_split_on_field(p1, p2, '-');
    assert(split_on(r0, '-') == seq![p1, p2]);
    crate::text::lemma_trim_trailing_space("pa"@ + fs);
    crate::text::lemma_trim_leading_space("pa"@ + fe);
}

proof fn lemma_attributes_field(st: RegionStatus, m: MemoryType)
    ensures
        ({
            let f = " ("@ + status_name(st) + ") "@ + memory_type_code(m) + "   RW  PXN "@;
            &&& forall|k: int| 0 <= k < f.len() ==> #[trigger] f[k] != '|'
            &&& spec_parse_attributes(trim(f)) == Ok::<(RegionStatus, MemoryType, Seq<char>), Seq<char>>((st, m, "RW PXN"@))
        }),
{
    reveal_strlit(" (");
    reveal_strlit("(");
    reveal_strlit(") ");
    reveal_strlit("   RW  PXN ");
    reveal_strlit("   RW  PXN");
    reveal_strlit("Free");
    reveal_strlit("Used");
    reveal_strlit("Drop");
    reveal_strlit("C");
    reveal_strlit("Dev");
    let n = status_name(st);
    let t = memory_type_code(m);
    let f = " ("@ + n + ") "@ + t + "   RW  PXN "@;
    let attrs = "("@ + n + ") "@ + t + "   RW  PXN"@;
    assert(f == seq![' '] + attrs + seq![' ']);
    assert forall|k: int| 0 <= k < n.len() implies #[trigger] n[k] != '|' by {}
    assert forall|k: int| 0 <= k < t.len() implies #[trigger] t[k] != '|' by {}
    assert forall|k: int| 0 <= k < f.len() implies #[trigger] f[k] != '|' by {}
    assert(attrs[0] == '(');
    assert(attrs.last() == 'N');
    crate::text::lemma_trim_between_spaces(attrs);
    law_attributes_round_trip(st, m);
}

proof fn lemma_four_fields(a: Seq<char>, b: Seq<char>, c: Seq<char>, d: Seq<char>)
    requires
        forall|k: int| 0 <= k < a.len() ==> #[trigger] a[k] != '|',
        forall|k: int| 0 <= k < b.len() ==> #[trigger] b[k] != '|',
        forall|k: int| 0 <= k < c.len() ==> #[trigger] c[k] != '|',
        forall|k: int| 0 <= k < d.len() ==> #[trigger] d[k] != '|',
    ensures
        split_on(a + seq!['|'] + b + seq!['|'] + c + seq!['|'] + d, '|') == seq![a, b, c, d],
{
    let rest2 = c + seq!['|'] + d;
    let rest1 = b + seq!['|'] + rest2;
    assert(a + seq!['|'] + b + seq!['|'] + c + seq!['|'] + d == a + seq!['|'] + rest1);
    crate::text::lemma_split_on_none(d, '|');
    crate::text::lemma_split_on_field(c, d, '|');
    crate::text::lemma_split_on_field(b, rest2, '|');
    crate::text::lemma_split_on_field(a, rest1, '|');
    assert(seq![a] + (seq![b] + (seq![c] + seq![d])) == seq![a, b, c, d]);
}

/// A map line written from a region's fields reads back as that region: the
/// four `|`-separated fields hold the addresses as `format_addr` writes them
/// with `pa` for `0x`, any size text, the status and memory type code in the
/// attributes, and a name, which comes back trimmed.
pub proof fn law_line_round_trip(
    start: u64,
    end: u64,
    st: RegionStatus,
    m: MemoryType,
    size: Seq<char>,
    name: Seq<char>,
)
    requires
        forall|k: int| 0 <= k < size.len() ==> #[trigger] size[k] != '|',
        forall|k: int| 0 <= k < name.len() ==> #[trigger] name[k] != '|',
    ensures
        spec_parse_line(
            ("[pa"@ + crate::colors::spec_format_addr(start).skip(2) + " - pa"@ + crate::colors::spec_format_addr(end).skip(2) + ") "@)
                + "|"@ + (" "@ + size + " "@)
                + "|"@ + (" ("@ + status_name(st) + ") "@ + memory_type_code(m) + "   RW  PXN "@)
                + "|"@ + (" "@ + name),
        ) == Ok::<RegionSpec, Seq<char>>(
            RegionSpec { start, end, status: st, mem_type: m, permissions: "RW PXN"@, name: trim(name) },
        ),
{
    reveal_strlit("|");
    reveal_strlit(" ");
    let a = "[pa"@ + crate::colors::spec_format_addr(start).skip(2) + " - pa"@ + crate::colors::spec_format_addr(end).skip(2) + ") "@;
    let b = " "@ + size + " "@;
    let c = " ("@ + status_name(st) + ") "@ + memory_type_code(m) + "   RW  PXN "@;
    let d = " "@ + name;
    lemma_range_field(start, end);
    lemma_attributes_field(st, m);
    assert forall|k: int| 0 <= k < b.len() implies #[trigger] b[k] != '|' by {}
    assert forall|k: int| 0 <= k < d.len() implies #[trigger] d[k] != '|' by {}
    lemma_four_fields(a, b, c, d);
    assert(d == seq![' '] + name);
    crate::text::lemma_trim_after_space(name);
    assert("|"@ == seq!['|']);
    assert(a + "|"@ + b + "|"@ + c + "|"@ + d == a + seq!['|'] + b + seq!['|'] + c + seq!['|'] + d);
    assert(split_on(a + "|"@ + b + "|"@ + c + "|"@ + d, '|') == seq![a, b, c, d]);
}

/// Error text for line number `no` (counted from 1): the line's own error,
/// then the line.
pub open spec fn line_error(no: nat, e: Seq<char>, line: Seq<char>) -> Seq<char> {
    "line "@ + decimal(no) + ": "@ + e + ": "@ + line
}

/// Reads `lines` in order, numbered from `base + 1`, each with surrounding
/// whitespace removed: blank lines are skipped, and the first line that
/// does not read ends the reading with its error.
pub open spec fn parse_lines(lines: Seq<Seq<char>>, base: nat) -> Result<Seq<RegionSpec>, Seq<char>>
    decreases lines.len(),
{
    if lines.len() == 0 {
        Ok(Seq::<RegionSpec>::empty())
    } else {
        let t = trim(lines[0]);
        if t.len() == 0 {
            parse_lines(lines.drop_first(), base + 1)
        } else {
            match spec_parse_line(t) {
                Err(e) => Err(line_error(base + 1, e, t)),
                Ok(r) => match parse_lines(lines.drop_first(), base + 1) {
                    Ok(rs) => Ok(seq![r] + rs),
                    Err(e) => Err(e),
                },
            }
        }
    }
}

/// Reading `lines` reaches a line that does not finish reading before any
/// line that fails.
pub open spec fn lines_abort(lines: Seq<Seq<char>>) -> bool
    decreases lines.len(),
{
    if lines.len() == 0 {
        false
    } else {
        let t = trim(lines[0]);
        if t.len() == 0 {
            lines_abort(lines.drop_first())
        } else if line_aborts(t) {
            true
        } else if spec_parse_line(t) is Err {
            false
        } else {
            lines_abort(lines.drop_first())
        }
    }
}

/// The regions of a map text, in the order of its lines, or the error of its
/// first line that does not read. Lines end at `\n`.
pub open spec fn spec_read_regions(input: Seq<char>) -> Result<Seq<RegionSpec>, Seq<char>> {
    parse_lines(split_on(input, '\n'), 0)
}

proof fn lemma_parse_lines_base(ls: Seq<Seq<char>>, b1: nat, b2: nat)
    requires
        parse_lines(ls, b1) is Ok,
    ensures
        parse_lines(ls, b2) == parse_lines(ls, b1),
    decreases ls.len(),
{
    if ls.len() > 0 {
        let t = trim(ls[0]);
        if t.len() == 0 {
            lemma_parse_lines_base(ls.drop_first(), b1 + 1, b2 + 1);
        } else if spec_parse_line(t) is Ok {
            lemma_parse_lines_base(ls.drop_first(), b1 + 1, b2 + 1);
        }
    }
}

proof fn lemma_parse_lines_concat(a: Seq<Seq<char>>, b: Seq<Seq<char>>, base: nat)
    ensures
        parse_lines(a + b, base) == (match parse_lines(a, base) {
            Ok(ra) => after_prefix(ra, parse_lines(b, base + a.len())),
            Err(e) => Err::<Seq<RegionSpec>, Seq<char>>(e),
        }),
    decreases a.len(),
{
    if a.len() == 0 {
        assert(a + b == b);
        if let Ok(rs) = parse_lines(b, base) {
            assert(Seq::<RegionSpec>::empty() + rs == rs);
        }
    } else {
        assert((a + b).drop_first() == a.drop_first() + b);
        assert((a + b)[0] == a[0]);
        lemma_parse_lines_concat(a.drop_first(), b, base + 1);
        assert(base + 1 + a.drop_first().len() == base + a.len());
        let t = trim(a[0]);
        if t.len() > 0 {
            if let Ok(r) = spec_parse_line(t) {
                if let Ok(ra) = parse_lines(a.drop_first(), base + 1) {
                    if let Ok(rb) = parse_lines(b, base + a.len()) {
                        assert(seq![r] + (ra + rb) == (seq![r] + ra) + rb);
                    }
                }
            }
        }
    }
}

proof fn lemma_parse_blank_lines(ls: Seq<Seq<char>>, base: nat)
    requires
        forall|i: int, k: int| 0 <= i < ls.len() && 0 <= k < ls[i].len() ==> crate::text::is_ws(#[trigger] ls[i][k]),
    ensures
        parse_lines(ls, base) == Ok::<Seq<RegionSpec>, Seq<char>>(Seq::<RegionSpec>::empty()),
    decreases ls.len(),
{
    if ls.len() > 0 {
        let l0 = ls[0];
        assert forall|k: int| 0 <= k < l0.len() implies crate::text::is_ws(#[trigger] l0[k]) by {
            assert(crate::text::is_ws(ls[0][k]));
        }
        crate::text::lemma_trim_blank(l0);
        let rest = ls.drop_first();
        assert forall|i: int, k: int| 0 <= i < rest.len() && 0 <= k < rest[i].len() implies crate::text::is_ws(#[trigger] rest[i][k]) by {
            assert(rest[i] == ls[i + 1]);
            assert(crate::text::is_ws(ls[i + 1][k]));
        }
        lemma_parse_blank_lines(rest, base + 1);
    }
}

/// A map text of whitespace only, blank lines included, has no regions.
pub proof fn law_blank_map_has_no_regions(input: Seq<char>)
    requires
        forall|k: int| 0 <= k < input.len() ==> crate::text::is_ws(#[trigger] input[k]),
    ensures
        spec_read_regions(input) == Ok::<Seq<RegionSpec>, Seq<char>>(Seq::<RegionSpec>::empty()),
{
    crate::text::lemma_split_on_blank(input, '\n');
    lemma_parse_blank_lines(split_on(input, '\n'), 0);
}

/// A map text of one line that is not blank holds the region of that line,
/// read without its surrounding whitespace; when the line does not read, the
/// error names line 1, the error and the line.
pub proof fn law_one_line_map(line: Seq<char>)
    requires
        forall|k: int| 0 <= k < line.len() ==> #[trigger] line[k] != '\n',
        trim(line).len() > 0,
    ensures
        spec_read_regions(line) == (match spec_parse_line(trim(line)) {
            Ok(r) => Ok::<Seq<RegionSpec>, Seq<char>>(seq![r]),
            Err(e) => Err::<Seq<RegionSpec>, Seq<char>>(line_error(1, e, trim(line))),
        }),
{
    crate::text::lemma_split_on_none(line, '\n');
    let ls = split_on(line, '\n');
    assert(ls.drop_first() == Seq::<Seq<char>>::empty());
    assert(ls[0] == line);
    assert(parse_lines(ls.drop_first(), 1) == Ok::<Seq<RegionSpec>, Seq<char>>(Seq::<RegionSpec>::empty()));
    if let Ok(r) = spec_parse_line(trim(line)) {
        assert(seq![r] + Seq::<RegionSpec>::empty() == seq![r]);
    }
}

/// Two map texts joined by a line break read as the regions of the first
/// followed by those of the second, when both read; when the first does not
/// read, its error is the error of the whole.
pub proof fn law_maps_concatenate(x: Seq<char>, y: Seq<char>)
    ensures
        spec_read_regions(x) is Ok && spec_read_regions(y) is Ok ==> spec_read_regions(x + seq!['\n'] + y)
            == Ok::<Seq<RegionSpec>, Seq<char>>(spec_read_regions(x)->Ok_0 + spec_read_regions(y)->Ok_0),
        spec_read_regions(x) matches Err(e)
            ==> spec_read_regions(x + seq!['\n'] + y) == Err::<Seq<RegionSpec>, Seq<char>>(e),
{
    crate::text::lemma_split_on_concat(x, y, '\n');
    let a = split_on(x, '\n');
    let b = split_on(y, '\n');
    lemma_parse_lines_concat(a, b, 0);
    assert(spec_read_regions(x + seq!['\n'] + y) == parse_lines(a + b, 0));
    if let Ok(ry) = parse_lines(b, 0) {
        lemma_parse_lines_base(b, 0, a.len());
        assert(parse_lines(b, 0 + a.len()) == parse_lines(b, 0));
        if let Ok(rx) = parse_lines(a, 0) {
            assert(parse_lines(a + b, 0) == after_prefix(rx, parse_lines(b, 0 + a.len())));
            assert(parse_lines(a + b, 0) == Ok::<Seq<RegionSpec>, Seq<char>>(rx + ry));
        }
    }
}

/// Attributes that do not finish reading have a `)` before any `(`.
pub proof fn law_abort_means_close_before_open(s: Seq<char>)
    ensures
        attributes_abort(s) ==> exists|j: int| 0 <= j < s.len() && #[trigger] s[j] == ')'
            && forall|k: int| 0 <= k <= j ==> s[k] != '(',
{
    crate::text::lemma_find_first_found(s, '(');
    crate::text::lemma_find_first_found(s, ')');
    if attributes_abort(s) {
        let j = find_first(s, ')')->0;
        assert(s[j] == ')');
    }
}

/// Reading a map text aborts only at a line whose attributes do not finish
/// reading.
pub proof fn law_abort_only_at_a_bad_line(lines: Seq<Seq<char>>)
    ensures
        lines_abort(lines) ==> exists|i: int| 0 <= i < lines.len() && line_aborts(trim(#[trigger] lines[i])),
    decreases lines.len(),
{
    if lines.len() > 0 {
        law_abort_only_at_a_bad_line(lines.drop_first());
        if lines_abort(lines) && !line_aborts(trim(lines[0])) {
            let rest = lines.drop_first();
            let i = choose|i: int| 0 <= i < rest.len() && line_aborts(trim(#[trigger] rest[i]));
            assert(lines[i + 1] == rest[i]);
        }
    }
}

/// Reading the map text does not finish.
pub open spec fn regions_abort(input: Seq<char>) -> bool {
    lines_abort(split_on(input, '\n'))
}

/// `res` with `pre` in front of its regions.
pub open spec fn after_prefix(pre: Seq<RegionSpec>, res: Result<Seq<RegionSpec>, Seq<char>>) -> Result<Seq<RegionSpec>, Seq<char>> {
    match res {
        Ok(rs) => Ok(pre + rs),
        Err(e) => Err(e),
    }
}

pub open spec fn region_views(v: Seq<MemoryRegion>) -> Seq<RegionSpec> {
    v.map_values(|r: MemoryRegion| r@)
}

/// Region `a`, found at position `ia` of a list, comes before region `b`,
/// found at position `ib`: ordered by start, then end, then position.
pub open spec fn comes_before(a: RegionSpec, ia: int, b: RegionSpec, ib: int) -> bool {
    ||| a.start < b.start
    ||| a.start == b.start && a.end < b.end
    ||| a.start == b.start && a.end == b.end && ia < ib
}

/// `out` lists the regions of `inp` taken at positions `order`, each once,
/// ordered by start, then end, then position in `inp`.
pub open spec fn arranged_by(out: Seq<RegionSpec>, inp: Seq<RegionSpec>, order: Seq<int>) -> bool {
    &&& out.len() == inp.len()
    &&& order.len() == inp.len()
    &&& forall|i: int| 0 <= i < order.len() ==> 0 <= #[trigger] order[i] < inp.len()
    &&& forall|i: int| 0 <= i < out.len() ==> #[trigger] out[i] == inp[order[i]]
    &&& forall|i: int, j: int|
        0 <= i < j < out.len() ==> comes_before(#[trigger] out[i], order[i], #[trigger] out[j], order[j])
}

/// `out` is `inp` sorted by start address, then end address, regions with
/// equal addresses keeping their order.
pub open spec fn sorted_stably(out: Seq<RegionSpec>, inp: Seq<RegionSpec>) -> bool {
    exists|order: Seq<int>| arranged_by(out, inp, order)
}

/// A stably sorted list is in address order: by start, then by end; each of
/// its regions is one of the input's regions, taken once; and regions with
/// the same start and end keep their input order.
pub proof fn law_sorted_by_address(out: Seq<RegionSpec>, inp: Seq<RegionSpec>)
    requires
        sorted_stably(out, inp),
    ensures
        out.len() == inp.len(),
        forall|i: int, j: int| 0 <= i < j < out.len() ==> {
            ||| (#[trigger] out[i]).start < (#[trigger] out[j]).start
            ||| out[i].start == out[j].start && out[i].end <= out[j].end
        },
        exists|order: Seq<int>| {
            &&& order.len() == out.len()
            &&& forall|i: int| 0 <= i < out.len() ==> 0 <= #[trigger] order[i] < inp.len() && out[i] == inp[order[i]]
            &&& forall|i: int, j: int| 0 <= i < j < out.len() ==> #[trigger] order[i] != #[trigger] order[j]
            &&& forall|i: int, j: int| 0 <= i < j < out.len() && out[i].start == out[j].start && out[i].end == out[j].end
                ==> #[trigger] order[i] < #[trigger] order[j]
        },
{
    let order = choose|order: Seq<int>| arranged_by(out, inp, order);
    assert forall|i: int, j: int| 0 <= i < j < out.len() implies #[trigger] order[i] != #[trigger] order[j] by {
        assert(comes_before(out[i], order[i], out[j], order[j]));
    }
}

/// Sorts regions by start, then end address (a stable sort).
fn sort_regions(items: Vec<MemoryRegion>) -> (out: Vec<MemoryRegion>)
    ensures
        sorted_stably(region_views(out@), region_views(items@)),
{
    let n = items.len();
    let mut out: Vec<MemoryRegion> = Vec::new();
    let ghost mut order: Seq<int> = Seq::empty();
    let mut k: usize = 0;
    while k < n
        invariant
            n == items.len(),
            k <= n,
            out.len() == k,
            order.len() == k,
            forall|i: int| 0 <= i < k ==> 0 <= #[trigger] order[i] < k,
            forall|i: int| 0 <= i < k ==> #[trigger] out@[i]@ == items@[order[i]]@,
            forall|i: int, j: int|
                0 <= i < j < k ==> comes_before(#[trigger] out@[i]@, order[i], #[trigger] out@[j]@, order[j]),
        decreases n - k,
    {
        let r = items[k].clone();
        let mut pos: usize = 0;
        while pos < out.len() && (out[pos].start < r.start || (out[pos].start == r.start && out[pos].end
            <= r.end))
            invariant
                pos <= out.len(),
                out.len() == k,
                order.len() == k,
                forall|i: int| 0 <= i < k ==> 0 <= #[trigger] order[i] < k,
                forall|i: int| 0 <= i < pos ==> comes_before(#[trigger] out@[i]@, order[i], r@, k as int),
            decreases out.len() - pos,
        {
            pos = pos + 1;
        }
        assert forall|j: int| pos <= j < k implies comes_before(r@, k as int, #[trigger] out@[j]@, order[j]) by {
            if j > pos {
                assert(comes_before(out@[pos as int]@, order[pos as int], out@[j]@, order[j]));
            }
        }
        let ghost old_out = out@;
        let ghost old_order = order;
        out.insert(pos, r);
        proof {
            order = order.insert(pos as int, k as int);
            assert forall|i: int| 0 <= i < k + 1 implies #[trigger] out@[i]@ == items@[order[i]]@ by {
                if i < pos {
                    assert(out@[i] == old_out[i]);
                } else if i > pos {
                    assert(out@[i] == old_out[i - 1]);
                }
            }
            assert forall|i: int, j: int| 0 <= i < j < k + 1 implies comes_before(
                #[trigger] out@[i]@,
                order[i],
                #[trigger] out@[j]@,
                order[j],
            ) by {
                if j < pos {
                    assert(out@[i] == old_out[i] && out@[j] == old_out[j]);
                } else if j == pos {
                    assert(out@[i] == old_out[i]);
                } else if i < pos {
                    assert(out@[i] == old_out[i] && out@[j] == old_out[j - 1]);
                } else if i == pos {
                    assert(out@[j] == old_out[j - 1]);
                } else {
                    assert(out@[i] == old_out[i - 1] && out@[j] == old_out[j - 1]);
                }
            }
        }
        k = k + 1;
    }
    proof {
        let ov = region_views(out@);
        let iv = region_views(items@);
        assert(arranged_by(ov, iv, order));
    }
    out
}


proof fn lemma_after_prefix_step(pre: Seq<RegionSpec>, r: RegionSpec, rest: Result<Seq<RegionSpec>, Seq<char>>)
    ensures
        after_prefix(
            pre,
            match rest {
                Ok(rs) => Ok(seq![r] + rs),
                Err(e) => Err(e),
            },
        ) == after_prefix(pre.push(r), rest),
{
    if let Ok(rs) = rest {
        assert(pre + (seq![r] + rs) == pre.push(r) + rs);
    }
}

/// Parse the text format into memory regions, sorted by start address, then
/// end address (regions with equal addresses keep their order).
///
/// Expected line format:
/// ```text
///   [pa00_0020_0000 - pa00_0020_7260) |  29 KiB | (Free) C   RW PXN | RAM
/// ```
pub fn parse_regions(input: &str) -> (r: Result<Vec<MemoryRegion>, String>)
    requires
        !regions_abort(input@),
    ensures
        r matches Ok(v) ==> spec_read_regions(input@) matches Ok(rs) && sorted_stably(region_views(v@), rs),
        r matches Err(e) ==> spec_read_regions(input@) == Err::<Seq<RegionSpec>, Seq<char>>(e@),
{
    let cs = chars_of(input);
    let n = cs.len();
    assert(cs@.subrange(0, n as int) == cs@);
    let lines = split_ranges(&cs, 0, n, '\n');
    let ghost all = pieces(cs@, lines@);
    let mut regions: Vec<MemoryRegion> = Vec::new();
    let mut i: usize = 0;
    assert(all.skip(0) == all);
    assert(after_prefix(Seq::<RegionSpec>::empty(), parse_lines(all, 0)) == parse_lines(all, 0)) by {
        if let Ok(rs) = parse_lines(all, 0) {
            assert(Seq::<RegionSpec>::empty() + rs == rs);
        }
    }
    while i < lines.len()
        invariant
            all == pieces(cs@, lines@),
            all == split_on(input@, '\n'),
            crate::text::ranges_within(lines@, 0, n as int),
            n == cs.len(),
            i <= lines.len(),
            !lines_abort(all.skip(i as int)),
            parse_lines(all, 0) == after_prefix(region_views(regions@), parse_lines(all.skip(i as int), i as nat)),
        decreases lines.len() - i,
    {
        assert(all.skip(i as int).drop_first() == all.skip(i + 1));
        assert(all.skip(i as int)[0] == all[i as int]);
        let (a, b) = lines[i];
        let (a, b) = trim_range(&cs, a, b);
        if a < b {
            let text = string_of(&cs, a, b);
            match parse_line(text.as_str()) {
                Ok(r) => {
                    let ghost pre = region_views(regions@);
                    regions.push(r);
                    assert(region_views(regions@) == pre.push(r@));
                    proof {
                        lemma_after_prefix_step(pre, r@, parse_lines(all.skip(i + 1), (i + 1) as nat));
                    }
                },
                Err(e) => {
                    let mut msg = String::from_str("line ");
                    push_decimal(&mut msg, i + 1);
                    push_str(&mut msg, ": ");
                    push_str(&mut msg, e.as_str());
                    push_str(&mut msg, ": ");
                    push_str(&mut msg, text.as_str());
                    return Err(msg);
                },
            }
        } else {
            assert(cs@.subrange(a as int, b as int).len() == 0);
        }
        i = i + 1;
    }
    assert(all.skip(i as int).len() == 0);
    assert(region_views(regions@) + Seq::<RegionSpec>::empty() == region_views(regions@));
    Ok(sort_regions(regions))
}

/// Whether the line's attributes do not finish reading (see `line_aborts`).
fn line_would_panic(line: &str) -> (b: bool)
    ensures
        b == line_aborts(line@),
{
    let cs = chars_of(line);
    let n = cs.len();
    assert(cs@.subrange(0, n as int) == cs@);
    let parts = split_ranges(&cs, 0, n, '|');
    if parts.len() < 4 {
        return false;
    }
    let (a0, a1) = parts[0];
    let (a0, a1) = trim_range(&cs, a0, a1);
    let addr_part = string_of(&cs, a0, a1);
    if parse_address_range(addr_part.as_str()).is_err() {
        return false;
    }
    let (t0, t1) = parts[2];
    let (t0, t1) = trim_range(&cs, t0, t1);
    let open = find_char(&cs, t0, t1, '(');
    let close = find_char(&cs, t0, t1, ')');
    match (open, close) {
        (Some(o), Some(c)) => c < o,
        _ => false,
    }
}

/// Whether `parse_regions` would not finish on `input`: some line has its
/// first `)` before its first `(` in the attributes, and no earlier line
/// fails to read.
pub fn regions_would_panic(input: &str) -> (b: bool)
    ensures
        b == regions_abort(input@),
{
    let cs = chars_of(input);
    let n = cs.len();
    assert(cs@.subrange(0, n as int) == cs@);
    let lines = split_ranges(&cs, 0, n, '\n');
    let ghost all = pieces(cs@, lines@);
    let mut i: usize = 0;
    assert(all.skip(0) == all);
    while i < lines.len()
        invariant
            all == pieces(cs@, lines@),
            all == split_on(input@, '\n'),
            crate::text::ranges_within(lines@, 0, n as int),
            n == cs.len(),
            i <= lines.len(),
            regions_abort(input@) == lines_abort(all.skip(i as int)),
        decreases lines.len() - i,
    {
        assert(all.skip(i as int).drop_first() == all.skip(i + 1));
        assert(all.skip(i as int)[0] == all[i as int]);
        let (a, b) = lines[i];
        let (a, b) = trim_range(&cs, a, b);
        if a < b {
            let text = string_of(&cs, a, b);
            if line_would_panic(text.as_str()) {
                return true;
            }
            if parse_line(text.as_str()).is_err() {
                return false;
            }
        } else {
            assert(cs@.subrange(a as int, b as int).len() == 0);
        }
        i = i + 1;
    }
    false
}

} // verus!
