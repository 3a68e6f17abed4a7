//! The header of a safetensors archive, as far as it says where the data of the tensors end.
//!
//! An archive starts with the header's size in eight bytes. The header is a JSON object of tensors.
//! Each tensor is an object with its fields under their names, or a list of its fields in order:
//! type, shape, offsets. Where a name occurs more than once, the last tensor of that name counts.

use vstd::prelude::*;

verus! {

/// The header's size as an archive's first eight bytes give it, least significant byte first.
pub open spec fn header_size(bytes: Seq<u8>) -> nat {
    (bytes[0] + 0x100 * bytes[1] + 0x1_0000 * bytes[2] + 0x100_0000 * bytes[3] + 0x1_0000_0000
        * bytes[4] + 0x100_0000_0000 * bytes[5] + 0x1_0000_0000_0000 * bytes[6]
        + 0x100_0000_0000_0000 * bytes[7]) as nat
}

/// The JSON header of an archive, or nothing where the buffer is too short to hold it.
pub open spec fn header_text(bytes: Seq<u8>) -> Seq<u8> {
    if bytes.len() >= 8 && header_size(bytes) <= bytes.len() - 8 {
        bytes.subrange(8, 8 + header_size(bytes) as int)
    } else {
        Seq::empty()
    }
}

// ── Strings ─────────────────────────────────────────────────────────────────

/// The value of a hexadecimal digit; out of range of a byte where it is none.
pub open spec fn hex_value(digit: u8) -> int {
    if 0x30 <= digit <= 0x39 {
        digit - 0x30
    } else if 0x41 <= digit <= 0x46 {
        digit - 0x41 + 10
    } else if 0x61 <= digit <= 0x66 {
        digit - 0x61 + 10
    } else {
        0x100
    }
}

/// The number that four hexadecimal digits denote.
pub open spec fn hex_unit(literal: Seq<u8>, at: int) -> int {
    hex_value(literal[at]) * 0x1000 + hex_value(literal[at + 1]) * 0x100 + hex_value(
        literal[at + 2],
    ) * 0x10 + hex_value(literal[at + 3])
}

/// A character in UTF-8.
pub open spec fn utf8(code: int) -> Seq<u8> {
    if code < 0x80 {
        seq![code as u8]
    } else if code < 0x800 {
        seq![(0xc0 + code / 0x40) as u8, (0x80 + code % 0x40) as u8]
    } else if code < 0x1_0000 {
        seq![
            (0xe0 + code / 0x1000) as u8,
            (0x80 + code / 0x40 % 0x40) as u8,
            (0x80 + code % 0x40) as u8,
        ]
    } else {
        seq![
            (0xf0 + code / 0x4_0000) as u8,
            (0x80 + code / 0x1000 % 0x40) as u8,
            (0x80 + code / 0x40 % 0x40) as u8,
            (0x80 + code % 0x40) as u8,
        ]
    }
}

/// The byte that a backslash and another byte stand for.
pub open spec fn escape_of(byte: u8) -> u8 {
    if byte == 0x62 {
        0x08
    } else if byte == 0x66 {
        0x0c
    } else if byte == 0x6e {
        0x0a
    } else if byte == 0x72 {
        0x0d
    } else if byte == 0x74 {
        0x09
    } else {
        byte
    }
}

/// What the front of a string literal stands for, and how many bytes of it that takes.
pub open spec fn decode_front(literal: Seq<u8>) -> (Seq<u8>, int) {
    if literal[0] != 0x5c || literal.len() < 2 {
        (seq![literal[0]], 1)
    } else if literal[1] == 0x75 && literal.len() >= 6 {
        let unit = hex_unit(literal, 2);
        if 0xd800 <= unit < 0xdc00 && literal.len() >= 12 && literal[6] == 0x5c && literal[7]
            == 0x75 && 0xdc00 <= hex_unit(literal, 8) < 0xe000 {
            (utf8(0x1_0000 + (unit - 0xd800) * 0x400 + (hex_unit(literal, 8) - 0xdc00)), 12)
        } else {
            (utf8(unit), 6)
        }
    } else {
        (seq![escape_of(literal[1])], 2)
    }
}

/// What a JSON string stands for, given what is written between its quotes, in UTF-8.
pub open spec fn decoded(literal: Seq<u8>) -> Seq<u8>
    decreases literal.len(),
{
    if literal.len() == 0 {
        Seq::empty()
    } else {
        decode_front(literal).0 + decoded(literal.skip(decode_front(literal).1))
    }
}

/// The value of a hexadecimal digit.
fn hex_digit(digit: u8) -> (value: u32)
    ensures
        value == hex_value(digit),
        value <= 0x100,
{
    if 0x30 <= digit && digit <= 0x39 {
        (digit - 0x30) as u32
    } else if 0x41 <= digit && digit <= 0x46 {
        (digit - 0x41 + 10) as u32
    } else if 0x61 <= digit && digit <= 0x66 {
        (digit - 0x61 + 10) as u32
    } else {
        0x100
    }
}

/// The number that the four hexadecimal digits at `at` denote.
fn hex_number(bytes: &[u8], at: usize) -> (unit: u32)
    requires
        at + 4 <= bytes@.len(),
    ensures
        unit == hex_unit(bytes@, at as int),
        unit <= 0x11_1100,
{
    hex_digit(bytes[at]) * 0x1000 + hex_digit(bytes[at + 1]) * 0x100 + hex_digit(bytes[at + 2])
        * 0x10 + hex_digit(bytes[at + 3])
}

/// Appends a character in UTF-8.
fn push_utf8(text: &mut Vec<u8>, code: u32)
    requires
        code <= 0x11_1100,
    ensures
        final(text)@ == old(text)@ + utf8(code as int),
{
    let ghost before = text@;
    if code < 0x80 {
        text.push(code as u8);
    } else if code < 0x800 {
        text.push((0xc0 + code / 0x40) as u8);
        text.push((0x80 + code % 0x40) as u8);
    } else if code < 0x1_0000 {
        text.push((0xe0 + code / 0x1000) as u8);
        text.push((0x80 + code / 0x40 % 0x40) as u8);
        text.push((0x80 + code % 0x40) as u8);
    } else {
        text.push((0xf0 + code / 0x4_0000) as u8);
        text.push((0x80 + code / 0x1000 % 0x40) as u8);
        text.push((0x80 + code / 0x40 % 0x40) as u8);
        text.push((0x80 + code % 0x40) as u8);
    }
    assert(text@ =~= before + utf8(code as int));
}

/// The byte that a backslash and `byte` stand for.
fn escape(byte: u8) -> (meant: u8)
    ensures
        meant == escape_of(byte),
{
    match byte {
        0x62 => 0x08,
        0x66 => 0x0c,
        0x6e => 0x0a,
        0x72 => 0x0d,
        0x74 => 0x09,
        _ => byte,
    }
}

/// Decodes the front of the string literal `bytes[at..to]`; returns how many bytes that takes.
fn decode_one(bytes: &[u8], at: usize, to: usize, text: &mut Vec<u8>) -> (taken: usize)
    requires
        at < to <= bytes@.len(),
    ensures
        taken == decode_front(bytes@.subrange(at as int, to as int)).1,
        0 < taken <= to - at,
        final(text)@ == old(text)@ + decode_front(bytes@.subrange(at as int, to as int)).0,
{
    let ghost rest = bytes@.subrange(at as int, to as int);
    let ghost before = text@;
    let left: usize = to - at;
    if bytes[at] != 0x5c || left < 2 {
        text.push(bytes[at]);
        assert(text@ =~= before + seq![rest[0]]);
        return 1;
    }
    if bytes[at + 1] != 0x75 || left < 6 {
        text.push(escape(bytes[at + 1]));
        assert(text@ =~= before + seq![escape_of(rest[1])]);
        return 2;
    }
    let unit: u32 = hex_number(bytes, at + 2);
    assert(unit == hex_unit(rest, 2));
    if 0xd800 <= unit && unit < 0xdc00 && left >= 12 && bytes[at + 6] == 0x5c && bytes[at + 7]
        == 0x75 {
        let low: u32 = hex_number(bytes, at + 8);
        assert(low == hex_unit(rest, 8));
        if 0xdc00 <= low && low < 0xe000 {
            push_utf8(text, 0x1_0000 + (unit - 0xd800) * 0x400 + (low - 0xdc00));
            return 12;
        }
    }
    push_utf8(text, unit);
    6
}

/// Decodes the string literal `bytes[from..to]`.
fn decode(bytes: &[u8], from: usize, to: usize) -> (text: Vec<u8>)
    requires
        from <= to <= bytes@.len(),
    ensures
        text@ == decoded(bytes@.subrange(from as int, to as int)),
{
    let mut text: Vec<u8> = Vec::new();
    let mut at: usize = from;
    let ghost whole = decoded(bytes@.subrange(from as int, to as int));
    assert(text@ + whole =~= whole);
    while at < to
        invariant
            from <= at <= to <= bytes@.len(),
            whole == text@ + decoded(bytes@.subrange(at as int, to as int)),
        decreases to - at,
    {
        let ghost rest = bytes@.subrange(at as int, to as int);
        let ghost before = text@;
        let taken: usize = decode_one(bytes, at, to, &mut text);
        proof {
            assert(rest.skip(taken as int) =~= bytes@.subrange(at + taken, to as int));
            assert(before + (decode_front(rest).0 + decoded(rest.skip(taken as int))) =~= text@
                + decoded(rest.skip(taken as int)));
        }
        at = at + taken;
    }
    assert(bytes@.subrange(to as int, to as int) =~= Seq::empty());
    assert(text@ + Seq::<u8>::empty() =~= text@);
    text
}

/// Whether two texts hold the same bytes.
fn same_bytes(a: &[u8], b: &[u8]) -> (same: bool)
    ensures
        same == (a@ == b@),
{
    if a.len() != b.len() {
        return false;
    }
    let mut at: usize = 0;
    while at < a.len()
        invariant
            at <= a@.len() == b@.len(),
            forall|i: int| 0 <= i < at ==> a@[i] == b@[i],
        decreases a@.len() - at,
    {
        if a[at] != b[at] {
            return false;
        }
        at = at + 1;
    }
    assert(a@ =~= b@);
    true
}

// ── The walk ────────────────────────────────────────────────────────────────

/// `data_offsets`, the key of where a tensor's data start and end.
pub open spec fn offsets_key() -> Seq<u8> {
    seq![
        0x64u8, 0x61u8, 0x74u8, 0x61u8, 0x5fu8, 0x6fu8, 0x66u8, 0x66u8, 0x73u8, 0x65u8, 0x74u8,
        0x73u8,
    ]
}

/// A tensor of a header.
pub struct HeaderEntry {
    /// Its name.
    pub name: Seq<u8>,
    /// Its data do not end beyond the limit.
    pub fits: bool,
}

/// Where a walk over a header stands.
#[verifier::ext_equal]
pub struct HeaderScan {
    /// Inside a string literal.
    pub in_string: bool,
    /// Right behind a backslash of a string literal.
    pub escaped: bool,
    /// What the last string literal holds, as written.
    pub literal: Seq<u8>,
    /// How many lists and objects are open.
    pub depth: nat,
    /// The tensor at hand is a list.
    pub listed: bool,
    /// Commas passed between the fields of the tensor at hand.
    pub fields: nat,
    /// The field at hand is the list of offsets.
    pub offsets: bool,
    /// Commas passed within the field at hand.
    pub items: nat,
    /// The number that the digits just passed denote.
    pub number: nat,
    /// The tensors so far, the one at hand last.
    pub entries: Seq<HeaderEntry>,
}

/// A walk that has not begun.
pub open spec fn scan_start() -> HeaderScan {
    HeaderScan {
        in_string: false,
        escaped: false,
        literal: Seq::empty(),
        depth: 0,
        listed: false,
        fields: 0,
        offsets: false,
        items: 0,
        number: 0,
        entries: Seq::empty(),
    }
}

/// The walk after one more byte inside a string.
pub open spec fn scan_string(before: HeaderScan, byte: u8) -> HeaderScan {
    let closes = !before.escaped && byte == 0x22;
    HeaderScan {
        in_string: !closes,
        escaped: !before.escaped && byte == 0x5c,
        literal: if closes {
            before.literal
        } else {
            before.literal.push(byte)
        },
        ..before
    }
}

/// The tensors, with the data of the last one ending beyond the limit.
pub open spec fn overlong(entries: Seq<HeaderEntry>) -> Seq<HeaderEntry> {
    if entries.len() > 0 {
        entries.drop_last().push(HeaderEntry { fits: false, ..entries.last() })
    } else {
        entries
    }
}

/// The walk after one more byte outside strings. A number is the end of a tensor's data where it is
/// the second item of the list of offsets: the field of that name, or the third of a list.
pub open spec fn scan_plain(before: HeaderScan, byte: u8, limit: nat) -> HeaderScan {
    if 0x30 <= byte <= 0x39 {
        let number = before.number * 10 + (byte - 0x30) as nat;
        let is_end = before.depth == 3 && before.offsets && before.items == 1;
        let entries = if is_end && number > limit {
            overlong(before.entries)
        } else {
            before.entries
        };
        HeaderScan { number, entries, ..before }
    } else if byte == 0x22 {
        HeaderScan { in_string: true, literal: Seq::empty(), number: 0, ..before }
    } else if byte == 0x5b || byte == 0x7b {
        if before.depth == 1 {
            let entry = HeaderEntry { name: decoded(before.literal), fits: true };
            HeaderScan {
                depth: 2,
                listed: byte == 0x5b,
                fields: 0,
                number: 0,
                entries: before.entries.push(entry),
                ..before
            }
        } else if before.depth == 2 {
            HeaderScan {
                depth: 3,
                offsets: byte == 0x5b && if before.listed {
                    before.fields == 2
                } else {
                    decoded(before.literal) == offsets_key()
                },
                items: 0,
                number: 0,
                ..before
            }
        } else {
            HeaderScan { depth: before.depth + 1, number: 0, ..before }
        }
    } else if byte == 0x5d || byte == 0x7d {
        let depth: nat = if before.depth > 0 {
            (before.depth - 1) as nat
        } else {
            0
        };
        HeaderScan { depth, number: 0, ..before }
    } else if byte == 0x2c {
        HeaderScan {
            fields: if before.depth == 2 {
                before.fields + 1
            } else {
                before.fields
            },
            items: if before.depth == 3 {
                before.items + 1
            } else {
                before.items
            },
            number: 0,
            ..before
        }
    } else {
        HeaderScan { number: 0, ..before }
    }
}

/// The walk over `text`, with `limit` as the greatest end of a tensor's data.
pub open spec fn scan_header(text: Seq<u8>, limit: nat) -> HeaderScan
    decreases text.len(),
{
    if text.len() == 0 {
        scan_start()
    } else {
        let before = scan_header(text.drop_last(), limit);
        if before.in_string {
            scan_string(before, text.last())
        } else {
            scan_plain(before, text.last(), limit)
        }
    }
}

/// How many tensors it takes to reach the end of the range of `usize`: the bits of a tensor are
/// counted in that range, so its bytes take up an eighth of it at most.
pub const SPANNING_TENSORS: usize = 8;

/// A later tensor has the same name.
pub open spec fn overridden(entries: Seq<HeaderEntry>, i: int) -> bool {
    exists|j: int| i < j < entries.len() && (#[trigger] entries[j]).name == entries[i].name
}

/// The data of the tensors that count end within the limit, or the tensors are too few to reach it.
pub open spec fn entries_fit(entries: Seq<HeaderEntry>) -> bool {
    entries.len() < SPANNING_TENSORS || forall|i: int|
        0 <= i < entries.len() && !(#[trigger] entries[i]).fits ==> overridden(entries, i)
}

/// The ends of the tensors' data, added to the archive's size, stay in range of `usize`. An archive
/// in which they do not is malformed: its data would end beyond the archive.
pub open spec fn data_ends_fit(bytes: Seq<u8>) -> bool {
    entries_fit(scan_header(header_text(bytes), (usize::MAX - bytes.len()) as nat).entries)
}

/// A tensor of a header, with its name as it is written by its place.
struct Entry {
    from: usize,
    to: usize,
    fits: bool,
}

/// What the entries stand for.
spec fn entries_view(entries: Seq<Entry>, bytes: Seq<u8>) -> Seq<HeaderEntry> {
    Seq::new(
        entries.len(),
        |i: int|
            HeaderEntry {
                name: decoded(bytes.subrange(entries[i].from as int, entries[i].to as int)),
                fits: entries[i].fits,
            },
    )
}

/// The places of the entries are within the bytes.
spec fn in_bytes(entries: Seq<Entry>, bytes: Seq<u8>) -> bool {
    forall|i: int|
        0 <= i < entries.len() ==> (#[trigger] entries[i]).from <= entries[i].to <= bytes.len()
}

/// Whether a later entry has the name of entry `i`.
fn is_overridden(entries: &Vec<Entry>, bytes: &[u8], i: usize) -> (later: bool)
    requires
        i < entries@.len(),
        in_bytes(entries@, bytes@),
    ensures
        later == overridden(entries_view(entries@, bytes@), i as int),
{
    let ghost all = entries_view(entries@, bytes@);
    let name: Vec<u8> = decode(bytes, entries[i].from, entries[i].to);
    assert(name@ == all[i as int].name);
    let len: usize = entries.len();
    let mut j: usize = i + 1;
    while j < len
        invariant
            i < j <= len == entries@.len(),
            in_bytes(entries@, bytes@),
            all == entries_view(entries@, bytes@),
            name@ == all[i as int].name,
            forall|k: int| i < k < j ==> (#[trigger] all[k]).name != name@,
        decreases entries@.len() - j,
    {
        let other: Vec<u8> = decode(bytes, entries[j].from, entries[j].to);
        assert(other@ == all[j as int].name);
        if same_bytes(name.as_slice(), other.as_slice()) {
            return true;
        }
        j = j + 1;
    }
    false
}

/// Whether the data of the entries that count end within the limit.
fn check_entries(entries: &Vec<Entry>, bytes: &[u8]) -> (fit: bool)
    requires
        in_bytes(entries@, bytes@),
    ensures
        fit == entries_fit(entries_view(entries@, bytes@)),
{
    let ghost all = entries_view(entries@, bytes@);
    if entries.len() < SPANNING_TENSORS {
        return true;
    }
    let mut i: usize = 0;
    while i < entries.len()
        invariant
            i <= entries@.len(),
            entries@.len() >= SPANNING_TENSORS,
            in_bytes(entries@, bytes@),
            all == entries_view(entries@, bytes@),
            forall|k: int| 0 <= k < i && !(#[trigger] all[k]).fits ==> overridden(all, k),
        decreases entries@.len() - i,
    {
        assert(all[i as int].fits == entries@[i as int].fits);
        if !entries[i].fits && !is_overridden(entries, bytes, i) {
            return false;
        }
        i = i + 1;
    }
    true
}

/// Where a walk over a header stands, with literals by their places.
struct HeaderWalk {
    in_string: bool,
    escaped: bool,
    from: usize,
    to: usize,
    depth: usize,
    listed: bool,
    fields: usize,
    offsets: bool,
    items: usize,
    /// The number passed so far, or none once it is over the limit.
    number: Option<usize>,
    entries: Vec<Entry>,
}

impl HeaderWalk {
    /// The walk has passed `at` bytes, and stands where `scan` does.
    spec fn stands(&self, scan: HeaderScan, bytes: Seq<u8>, at: usize, limit: usize) -> bool {
        &&& self.from <= self.to <= at <= bytes.len()
        &&& self.in_string ==> self.to == at
        &&& self.depth <= at
        &&& self.fields <= at
        &&& self.items <= at
        &&& self.in_string == scan.in_string
        &&& self.escaped == scan.escaped
        &&& bytes.subrange(self.from as int, self.to as int) == scan.literal
        &&& self.depth == scan.depth
        &&& self.listed == scan.listed
        &&& self.fields == scan.fields
        &&& self.offsets == scan.offsets
        &&& self.items == scan.items
        &&& match self.number {
            Some(value) => value == scan.number && value <= limit,
            None => scan.number > limit,
        }
        &&& in_bytes(self.entries@, bytes)
        &&& entries_view(self.entries@, bytes) == scan.entries
    }

    /// Passes a byte inside a string.
    fn pass_string(&mut self, bytes: &[u8], at: usize, limit: usize, Ghost(scan): Ghost<HeaderScan>)
        requires
            at < bytes@.len(),
            old(self).in_string,
            old(self).stands(scan, bytes@, at, limit),
        ensures
            final(self).stands(
                scan_string(scan, bytes@[at as int]),
                bytes@,
                (at + 1) as usize,
                limit,
            ),
    {
        let byte: u8 = bytes[at];
        let ghost before = bytes@.subrange(self.from as int, self.to as int);
        if !self.escaped && byte == 0x22 {
            self.in_string = false;
        } else {
            self.to = at + 1;
            assert(bytes@.subrange(self.from as int, self.to as int) =~= before.push(byte));
        }
        self.escaped = !self.escaped && byte == 0x5c;
    }

    /// Notes that the data of the tensor at hand end beyond the limit.
    fn note_overlong(&mut self, bytes: &[u8])
        requires
            in_bytes(old(self).entries@, bytes@),
        ensures
            in_bytes(final(self).entries@, bytes@),
            entries_view(final(self).entries@, bytes@) == overlong(
                entries_view(old(self).entries@, bytes@),
            ),
            *final(self) == (HeaderWalk { entries: final(self).entries, ..*old(self) }),
    {
        let ghost before = self.entries@;
        let len: usize = self.entries.len();
        if len > 0 {
            self.entries[len - 1].fits = false;
            proof {
                assert forall|i: int| 0 <= i < len - 1 implies #[trigger] self.entries@[i]
                    == before[i] by {}
                assert(self.entries@[len - 1].from == before[len - 1].from);
                assert(entries_view(self.entries@, bytes@) =~= overlong(
                    entries_view(before, bytes@),
                ));
            }
        }
    }

    /// Passes the opening of a list or an object.
    fn pass_opening(&mut self, bytes: &[u8], is_list: bool)
        requires
            old(self).from <= old(self).to <= bytes@.len(),
            old(self).depth < usize::MAX,
            in_bytes(old(self).entries@, bytes@),
        ensures
            in_bytes(final(self).entries@, bytes@),
            ({
                let literal = bytes@.subrange(old(self).from as int, old(self).to as int);
                let entries = entries_view(old(self).entries@, bytes@);
                &&& entries_view(final(self).entries@, bytes@) == if old(self).depth == 1 {
                    entries.push(HeaderEntry { name: decoded(literal), fits: true })
                } else {
                    entries
                }
                &&& *final(self) == (HeaderWalk {
                    entries: final(self).entries,
                    depth: (old(self).depth + 1) as usize,
                    listed: if old(self).depth == 1 {
                        is_list
                    } else {
                        old(self).listed
                    },
                    fields: if old(self).depth == 1 {
                        0
                    } else {
                        old(self).fields
                    },
                    offsets: if old(self).depth == 2 {
                        is_list && if old(self).listed {
                            old(self).fields == 2
                        } else {
                            decoded(literal) == offsets_key()
                        }
                    } else {
                        old(self).offsets
                    },
                    items: if old(self).depth == 2 {
                        0
                    } else {
                        old(self).items
                    },
                    ..*old(self)
                })
            }),
    {
        let ghost before = self.entries@;
        if self.depth == 1 {
            self.entries.push(Entry { from: self.from, to: self.to, fits: true });
            self.listed = is_list;
            self.fields = 0;
            assert(entries_view(self.entries@, bytes@) =~= entries_view(before, bytes@).push(
                HeaderEntry {
                    name: decoded(bytes@.subrange(self.from as int, self.to as int)),
                    fits: true,
                },
            ));
        } else if self.depth == 2 {
            self.offsets = is_list && if self.listed {
                self.fields == 2
            } else {
                let key: [u8; 12] = [
                    0x64, 0x61, 0x74, 0x61, 0x5f, 0x6f, 0x66, 0x66, 0x73, 0x65, 0x74, 0x73,
                ];
                assert(key@ =~= offsets_key());
                same_bytes(decode(bytes, self.from, self.to).as_slice(), key.as_slice())
            };
            self.items = 0;
        }
        self.depth = self.depth + 1;
    }

    /// Passes a byte outside strings.
    fn pass_plain(&mut self, bytes: &[u8], at: usize, limit: usize, Ghost(scan): Ghost<HeaderScan>)
        requires
            at < bytes@.len(),
            !old(self).in_string,
            old(self).stands(scan, bytes@, at, limit),
        ensures
            final(self).stands(
                scan_plain(scan, bytes@[at as int], limit as nat),
                bytes@,
                (at + 1) as usize,
                limit,
            ),
    {
        let byte: u8 = bytes[at];
        if 0x30 <= byte && byte <= 0x39 {
            let digit: usize = (byte - 0x30) as usize;
            self.number = match self.number {
                Some(value) => if value <= limit / 10 && digit <= limit - value * 10 {
                    Some(value * 10 + digit)
                } else {
                    None
                },
                None => None,
            };
            if self.depth == 3 && self.offsets && self.items == 1 && self.number.is_none() {
                self.note_overlong(bytes);
            }
            return ;
        }
        self.number = Some(0);
        if byte == 0x22 {
            self.in_string = true;
            self.from = at + 1;
            self.to = at + 1;
            assert(bytes@.subrange(at + 1, at + 1) =~= Seq::empty());
        } else if byte == 0x5b || byte == 0x7b {
            self.pass_opening(bytes, byte == 0x5b);
        } else if byte == 0x5d || byte == 0x7d {
            if self.depth > 0 {
                self.depth = self.depth - 1;
            }
        } else if byte == 0x2c {
            if self.depth == 2 {
                self.fields = self.fields + 1;
            }
            if self.depth == 3 {
                self.items = self.items + 1;
            }
        }
    }
}

/// Checks where the data of an archive's tensors end, before the archive is parsed.
pub fn check_data_ends(bytes: &[u8]) -> (fit: bool)
    ensures
        fit == data_ends_fit(bytes@),
{
    let len: usize = bytes.len();
    if len < 8 {
        return true;
    }
    let size: u128 = bytes[0] as u128 + 0x100 * bytes[1] as u128 + 0x1_0000 * bytes[2] as u128
        + 0x100_0000 * bytes[3] as u128 + 0x1_0000_0000 * bytes[4] as u128 + 0x100_0000_0000
        * bytes[5] as u128 + 0x1_0000_0000_0000 * bytes[6] as u128 + 0x100_0000_0000_0000
        * bytes[7] as u128;
    if size > (len - 8) as u128 {
        return true;
    }
    let end: usize = 8 + size as usize;
    let limit: usize = usize::MAX - len;
    let ghost text = header_text(bytes@);
    let mut at: usize = 8;
    let mut walk = HeaderWalk {
        in_string: false,
        escaped: false,
        from: 8,
        to: 8,
        depth: 0,
        listed: false,
        fields: 0,
        offsets: false,
        items: 0,
        number: Some(0),
        entries: Vec::new(),
    };
    assert(text.take(0) =~= Seq::empty());
    assert(bytes@.subrange(8, 8) =~= Seq::empty());
    assert(entries_view(walk.entries@, bytes@) =~= Seq::empty());
    while at < end
        invariant
            8 <= at <= end <= len == bytes@.len(),
            text =~= bytes@.subrange(8, end as int),
            walk.stands(scan_header(text.take(at - 8), limit as nat), bytes@, at, limit),
        decreases end - at,
    {
        let ghost scan = scan_header(text.take(at - 8), limit as nat);
        proof {
            assert(text.take(at - 8 + 1).drop_last() =~= text.take(at - 8));
            assert(text.take(at - 8 + 1).last() == bytes@[at as int]);
        }
        if walk.in_string {
            walk.pass_string(bytes, at, limit, Ghost(scan));
        } else {
            walk.pass_plain(bytes, at, limit, Ghost(scan));
        }
        at = at + 1;
    }
    assert(text.take(end - 8) =~= text);
    check_entries(&walk.entries, bytes)
}

// ── Laws ────────────────────────────────────────────────────────────────────

/// A literal without a backslash stands for itself.
pub proof fn law_plain_literals_stand_for_themselves(literal: Seq<u8>)
    requires
        forall|i: int| 0 <= i < literal.len() ==> (#[trigger] literal[i]) != 0x5c,
    ensures
        decoded(literal) == literal,
    decreases literal.len(),
{
    if literal.len() > 0 {
        let rest = literal.skip(1);
        assert(literal[0] != 0x5c);
        assert forall|i: int| 0 <= i < rest.len() implies (#[trigger] rest[i]) != 0x5c by {
            assert(literal[i + 1] != 0x5c);
        }
        law_plain_literals_stand_for_themselves(rest);
        assert(decoded(literal) =~= literal);
    }
}

/// Escaped, a letter for a control character stands for it, a quote, a slash and a backslash for
/// themselves, and four hexadecimal digits for the character of that number, where it is in the
/// range of ASCII.
pub proof fn law_escapes_stand_for_characters(rest: Seq<u8>, high: u8, low: u8)
    requires
        0x30 <= high <= 0x37,
        0x30 <= low <= 0x39,
    ensures
        decoded(seq![0x5cu8, 0x22u8] + rest) == seq![0x22u8] + decoded(rest),
        decoded(seq![0x5cu8, 0x5cu8] + rest) == seq![0x5cu8] + decoded(rest),
        decoded(seq![0x5cu8, 0x2fu8] + rest) == seq![0x2fu8] + decoded(rest),
        decoded(seq![0x5cu8, 0x62u8] + rest) == seq![0x08u8] + decoded(rest),
        decoded(seq![0x5cu8, 0x66u8] + rest) == seq![0x0cu8] + decoded(rest),
        decoded(seq![0x5cu8, 0x6eu8] + rest) == seq![0x0au8] + decoded(rest),
        decoded(seq![0x5cu8, 0x72u8] + rest) == seq![0x0du8] + decoded(rest),
        decoded(seq![0x5cu8, 0x74u8] + rest) == seq![0x09u8] + decoded(rest),
        decoded(seq![0x5cu8, 0x75u8, 0x30u8, 0x30u8, high, low] + rest) == seq![
            ((high - 0x30) * 0x10 + (low - 0x30)) as u8,
        ] + decoded(rest),
{
    assert((seq![0x5cu8, 0x22u8] + rest).skip(2) =~= rest);
    assert((seq![0x5cu8, 0x5cu8] + rest).skip(2) =~= rest);
    assert((seq![0x5cu8, 0x2fu8] + rest).skip(2) =~= rest);
    assert((seq![0x5cu8, 0x62u8] + rest).skip(2) =~= rest);
    assert((seq![0x5cu8, 0x66u8] + rest).skip(2) =~= rest);
    assert((seq![0x5cu8, 0x6eu8] + rest).skip(2) =~= rest);
    assert((seq![0x5cu8, 0x72u8] + rest).skip(2) =~= rest);
    assert((seq![0x5cu8, 0x74u8] + rest).skip(2) =~= rest);
    assert((seq![0x5cu8, 0x75u8, 0x30u8, 0x30u8, high, low] + rest).skip(6) =~= rest);
}

/// The walk over one byte more.
proof fn lemma_scan_push(text: Seq<u8>, byte: u8, limit: nat)
    ensures
        scan_header(text.push(byte), limit) == {
            let before = scan_header(text, limit);
            if before.in_string {
                scan_string(before, byte)
            } else {
                scan_plain(before, byte, limit)
            }
        },
{
    assert(text.push(byte).drop_last() =~= text);
}

/// A decimal digit.
pub open spec fn is_digit(byte: u8) -> bool {
    0x30 <= byte <= 0x39
}

/// Whether one of the bytes from `at` to `at + span` is not a digit.
pub open spec fn has_other(text: Seq<u8>, at: int, span: nat) -> bool {
    exists|i: int| at <= i <= at + span && !is_digit(#[trigger] text[i])
}

/// How many digits a text ends with.
spec fn digits_at_end(text: Seq<u8>) -> nat
    decreases text.len(),
{
    if text.len() > 0 && is_digit(text.last()) {
        digits_at_end(text.drop_last()) + 1
    } else {
        0
    }
}

proof fn lemma_digits_at_end(text: Seq<u8>, i: int)
    ensures
        digits_at_end(text) <= text.len(),
        text.len() - digits_at_end(text) <= i < text.len() ==> is_digit(text[i]),
    decreases text.len(),
{
    if text.len() > 0 && is_digit(text.last()) {
        lemma_digits_at_end(text.drop_last(), i);
    }
}

/// No tensor is noted as long as no number has more digits than the limit admits.
proof fn lemma_short_numbers(text: Seq<u8>, limit: nat, digits: nat)
    requires
        vstd::arithmetic::power::pow(10, digits) <= limit + 1,
        forall|at: int|
            0 <= at && at + digits < text.len() ==> #[trigger] has_other(text, at, digits),
    ensures
        ({
            let scan = scan_header(text, limit);
            &&& forall|i: int| 0 <= i < scan.entries.len() ==> (#[trigger] scan.entries[i]).fits
            &&& scan.number < vstd::arithmetic::power::pow(10, digits_at_end(text))
            &&& scan.in_string ==> scan.number == 0
        }),
    decreases text.len(),
{
    vstd::arithmetic::power::lemma_pow0(10);
    if text.len() > 0 {
        let prior = text.drop_last();
        let byte = text.last();
        assert forall|at: int| 0 <= at && at + digits < prior.len() implies #[trigger] has_other(
            prior,
            at,
            digits,
        ) by {
            assert(has_other(text, at, digits));
            let i = choose|i: int| at <= i <= at + digits && !is_digit(#[trigger] text[i]);
            assert(!is_digit(prior[i]));
        }
        lemma_short_numbers(prior, limit, digits);
        let before = scan_header(prior, limit);
        let scan = scan_header(text, limit);
        let run = digits_at_end(text);
        vstd::arithmetic::power::lemma_pow_positive(10, run);
        lemma_digits_at_end(text, 0);
        if run > digits {
            let at = text.len() - 1 - digits;
            assert(has_other(text, at, digits));
            let i = choose|i: int| at <= i <= at + digits && !is_digit(#[trigger] text[i]);
            lemma_digits_at_end(text, i);
        }
        if !before.in_string && is_digit(byte) {
            vstd::arithmetic::power::lemma_pow1(10);
            vstd::arithmetic::power::lemma_pow_adds(10, digits_at_end(prior), 1);
            vstd::arithmetic::power::lemma_pow_increases(10, run, digits);
            assert(scan.number <= limit);
        }
        assert(text == prior.push(byte));
        lemma_scan_push(prior, byte, limit);
    }
}

/// An archive is not refused as long as its numbers are short: where no number of its header has
/// more than `digits` digits, and a number of so many, added to the archive's size, is in the range
/// of `usize`.
pub proof fn law_short_numbers_are_not_refused(bytes: Seq<u8>, digits: nat)
    requires
        vstd::arithmetic::power::pow(10, digits) + bytes.len() <= usize::MAX,
        forall|at: int|
            0 <= at && at + digits < bytes.len() ==> #[trigger] has_other(bytes, at, digits),
    ensures
        data_ends_fit(bytes),
{
    let text = header_text(bytes);
    vstd::arithmetic::power::lemma_pow_positive(10, digits);
    assert forall|at: int| 0 <= at && at + digits < text.len() implies #[trigger] has_other(
        text,
        at,
        digits,
    ) by {
        assert(has_other(bytes, at + 8, digits));
        let i = choose|i: int|
            at + 8 <= i <= at + 8 + digits && !is_digit(#[trigger] bytes[i]);
        assert(text[i - 8] == bytes[i]);
    }
    lemma_short_numbers(text, (usize::MAX - bytes.len()) as nat, digits);
}

/// An archive that is too short for the header that it announces is left to the parser, as is one
/// without a header.
pub proof fn law_archives_without_a_header_are_not_refused(bytes: Seq<u8>)
    requires
        bytes.len() < 8 || header_size(bytes) > bytes.len() - 8 || header_size(bytes) == 0,
    ensures
        data_ends_fit(bytes),
{
    assert(header_text(bytes) =~= Seq::empty());
}

/// The size of a header is read from the archive's first eight bytes, the later ones counting for
/// more: where only the first is not zero it is that byte, and one more in byte `i` is `256` times
/// what one more in the byte before it is.
pub proof fn law_header_size_is_little_endian(bytes: Seq<u8>, more: Seq<u8>, i: int, unit: nat)
    requires
        bytes.len() >= 8,
        0 <= i < 8,
        bytes[i] < 255,
        more == bytes.update(i, (bytes[i] + 1) as u8),
        unit == vstd::arithmetic::power::pow(256, i as nat),
    ensures
        header_size(more) == header_size(bytes) + unit,
        (forall|j: int| 0 < j < 8 ==> (#[trigger] bytes[j]) == 0) ==> header_size(bytes)
            == bytes[0],
{
    reveal_with_fuel(vstd::arithmetic::power::pow, 9);
    if forall|j: int| 0 < j < 8 ==> (#[trigger] bytes[j]) == 0 {
        assert(bytes[1] == 0 && bytes[2] == 0 && bytes[3] == 0 && bytes[4] == 0 && bytes[5] == 0
            && bytes[6] == 0 && bytes[7] == 0);
    }
}

/// What is noted stays: with more of the header, no tensor is lost, none is named anew, and one
/// whose data end beyond the limit is not taken back.
pub proof fn law_noted_tensors_stay_noted(text: Seq<u8>, more: Seq<u8>, limit: nat, i: int)
    requires
        0 <= i < scan_header(text, limit).entries.len(),
    ensures
        ({
            let before = scan_header(text, limit).entries;
            let after = scan_header(text + more, limit).entries;
            &&& before.len() <= after.len()
            &&& after[i].name == before[i].name
            &&& !before[i].fits ==> !after[i].fits
            &&& i < before.len() - 1 ==> after[i].fits == before[i].fits
        }),
    decreases more.len(),
{
    if more.len() > 0 {
        let rest = more.drop_last();
        law_noted_tensors_stay_noted(text, rest, limit, i);
        assert(text + more =~= (text + rest).push(more.last()));
        lemma_scan_push(text + rest, more.last(), limit);
    } else {
        assert(text + more =~= text);
    }
}

/// The number that digits denote.
pub open spec fn value_of(digits: Seq<u8>) -> nat
    decreases digits.len(),
{
    if digits.len() == 0 {
        0
    } else {
        value_of(digits.drop_last()) * 10 + (digits.last() - 0x30) as nat
    }
}

/// The walk over digits.
proof fn lemma_scan_digits(text: Seq<u8>, digits: Seq<u8>, limit: nat)
    requires
        !scan_header(text, limit).in_string,
        scan_header(text, limit).number == 0,
        scan_header(text, limit).entries.len() > 0,
        forall|i: int| 0 <= i < digits.len() ==> is_digit(#[trigger] digits[i]),
    ensures
        ({
            let before = scan_header(text, limit);
            let after = scan_header(text + digits, limit);
            &&& after == (HeaderScan { number: value_of(digits), entries: after.entries, ..before })
            &&& after.entries.len() == before.entries.len()
            &&& before.depth == 3 && before.offsets && before.items == 1 && value_of(digits)
                > limit ==> !after.entries.last().fits
            &&& !(before.depth == 3 && before.offsets && before.items == 1) ==> after.entries
                == before.entries
        }),
    decreases digits.len(),
{
    if digits.len() > 0 {
        let rest = digits.drop_last();
        assert forall|i: int| 0 <= i < rest.len() implies is_digit(#[trigger] rest[i]) by {
            assert(is_digit(digits[i]));
        }
        assert(is_digit(digits[digits.len() - 1]));
        lemma_scan_digits(text, rest, limit);
        assert(text + digits =~= (text + rest).push(digits.last()));
        lemma_scan_push(text + rest, digits.last(), limit);
    } else {
        assert(text + digits =~= text);
    }
}

/// `"data_offsets":[`, as it is written before the offsets of a tensor.
pub open spec fn offsets_opening() -> Seq<u8> {
    seq![
        0x22u8, 0x64u8, 0x61u8, 0x74u8, 0x61u8, 0x5fu8, 0x6fu8, 0x66u8, 0x66u8, 0x73u8, 0x65u8,
        0x74u8, 0x73u8, 0x22u8, 0x3au8, 0x5bu8,
    ]
}

/// The walk over a literal without quotes and backslashes, between its quotes.
proof fn lemma_scan_literal(text: Seq<u8>, literal: Seq<u8>, limit: nat)
    requires
        !scan_header(text, limit).in_string,
        !scan_header(text, limit).escaped,
        forall|i: int|
            0 <= i < literal.len() ==> (#[trigger] literal[i]) != 0x22 && literal[i] != 0x5c,
    ensures
        scan_header(text.push(0x22) + literal, limit) == (HeaderScan {
            in_string: true,
            literal,
            number: 0,
            ..scan_header(text, limit)
        }),
    decreases literal.len(),
{
    if literal.len() > 0 {
        let rest = literal.drop_last();
        assert forall|i: int| 0 <= i < rest.len() implies (#[trigger] rest[i]) != 0x22 && rest[i]
            != 0x5c by {
            assert(literal[i] != 0x22);
        }
        assert(literal[literal.len() - 1] != 0x22);
        lemma_scan_literal(text, rest, limit);
        assert(text.push(0x22) + literal =~= (text.push(0x22) + rest).push(literal.last()));
        lemma_scan_push(text.push(0x22) + rest, literal.last(), limit);
        assert(rest.push(literal.last()) =~= literal);
    } else {
        lemma_scan_push(text, 0x22, limit);
        assert(text.push(0x22) + literal =~= text.push(0x22));
        assert(literal =~= Seq::empty());
    }
}

/// A tensor's data that end beyond the limit are noted: where the walk stands among the fields of a
/// tensor, and its offsets follow, the second of which is over the limit.
pub proof fn law_overlong_tensors_are_noted(
    text: Seq<u8>,
    start: Seq<u8>,
    end: Seq<u8>,
    limit: nat,
)
    requires
        !scan_header(text, limit).in_string,
        !scan_header(text, limit).escaped,
        scan_header(text, limit).depth == 2,
        !scan_header(text, limit).listed,
        scan_header(text, limit).entries.len() > 0,
        forall|i: int| 0 <= i < start.len() ==> is_digit(#[trigger] start[i]),
        forall|i: int| 0 <= i < end.len() ==> is_digit(#[trigger] end[i]),
        value_of(end) > limit,
    ensures
        ({
            let before = scan_header(text, limit).entries;
            let after = scan_header(
                text + offsets_opening() + start + seq![0x2cu8] + end,
                limit,
            ).entries;
            &&& after.len() == before.len()
            &&& !after.last().fits
        }),
{
    let key = offsets_opening().subrange(1, 13);
    assert forall|i: int| 0 <= i < key.len() implies (#[trigger] key[i]) != 0x22 && key[i]
        != 0x5c by {
        assert(key[i] == offsets_opening()[i + 1]);
        assert(i == 0 || i == 1 || i == 2 || i == 3 || i == 4 || i == 5 || i == 6 || i == 7 || i
            == 8 || i == 9 || i == 10 || i == 11);
    }
    lemma_scan_literal(text, key, limit);
    law_plain_literals_stand_for_themselves(key);
    assert(key =~= offsets_key());
    let named = text.push(0x22) + key;
    lemma_scan_push(named, 0x22, limit);
    lemma_scan_push(named.push(0x22), 0x3a, limit);
    lemma_scan_push(named.push(0x22).push(0x3a), 0x5b, limit);
    let opened = named.push(0x22).push(0x3a).push(0x5b);
    assert(opened =~= text + offsets_opening());
    lemma_scan_digits(opened, start, limit);
    lemma_scan_push(opened + start, 0x2c, limit);
    let second = (opened + start).push(0x2c);
    assert(second =~= text + offsets_opening() + start + seq![0x2cu8]);
    lemma_scan_digits(second, end, limit);
}

/// An archive of eight tensors or more is refused exactly where one of them ends beyond the limit
/// and no later one has its name; one of fewer is never refused.
pub proof fn law_refusal_needs_an_overlong_tensor(bytes: Seq<u8>)
    ensures
        ({
            let entries = scan_header(
                header_text(bytes),
                (usize::MAX - bytes.len()) as nat,
            ).entries;
            data_ends_fit(bytes) <==> entries.len() < 8 || !(exists|i: int|
                0 <= i < entries.len() && !(#[trigger] entries[i]).fits && (forall|j: int|
                    i < j < entries.len() ==> (#[trigger] entries[j]).name != entries[i].name))
        }),
{
    let entries = scan_header(header_text(bytes), (usize::MAX - bytes.len()) as nat).entries;
    if !data_ends_fit(bytes) {
        let i = choose|i: int|
            0 <= i < entries.len() && !(#[trigger] entries[i]).fits && !overridden(entries, i);
        assert(!entries[i].fits);
    }
}

/// The second number of a tensor's third field is where its data end, where the tensor is a list.
pub proof fn law_overlong_listed_tensors_are_noted(
    text: Seq<u8>,
    start: Seq<u8>,
    end: Seq<u8>,
    limit: nat,
)
    requires
        !scan_header(text, limit).in_string,
        scan_header(text, limit).depth == 2,
        scan_header(text, limit).listed,
        scan_header(text, limit).fields == 2,
        scan_header(text, limit).entries.len() > 0,
        forall|i: int| 0 <= i < start.len() ==> is_digit(#[trigger] start[i]),
        forall|i: int| 0 <= i < end.len() ==> is_digit(#[trigger] end[i]),
        value_of(end) > limit,
    ensures
        ({
            let before = scan_header(text, limit).entries;
            let after = scan_header(
                text + seq![0x5bu8] + start + seq![0x2cu8] + end,
                limit,
            ).entries;
            &&& after.len() == before.len()
            &&& !after.last().fits
        }),
{
    let opened = text.push(0x5b);
    lemma_scan_push(text, 0x5b, limit);
    assert(opened =~= text + seq![0x5bu8]);
    lemma_scan_digits(opened, start, limit);
    lemma_scan_push(opened + start, 0x2c, limit);
    let second = (opened + start).push(0x2c);
    assert(second =~= text + seq![0x5bu8] + start + seq![0x2cu8]);
    lemma_scan_digits(second, end, limit);
}

/// No other number counts: not of a shape, not the first offset, not one outside a tensor.
pub proof fn law_other_numbers_do_not_count(text: Seq<u8>, digits: Seq<u8>, limit: nat)
    requires
        !scan_header(text, limit).in_string,
        scan_header(text, limit).number == 0,
        scan_header(text, limit).entries.len() > 0,
        scan_header(text, limit).depth != 3 || !scan_header(text, limit).offsets || scan_header(
            text,
            limit,
        ).items != 1,
        forall|i: int| 0 <= i < digits.len() ==> is_digit(#[trigger] digits[i]),
    ensures
        scan_header(text + digits, limit).entries == scan_header(text, limit).entries,
{
    lemma_scan_digits(text, digits, limit);
}

/// A header opens with a brace; each name in it with a brace or a bracket behind it is a tensor of
/// that name, as an object or as a list, and the closing one ends it.
pub proof fn law_tensors_are_listed_by_name(text: Seq<u8>, name: Seq<u8>, limit: nat)
    requires
        !scan_header(text, limit).in_string,
        !scan_header(text, limit).escaped,
        scan_header(text, limit).depth == 1,
        forall|i: int| 0 <= i < name.len() ==> (#[trigger] name[i]) != 0x22 && name[i] != 0x5c,
    ensures
        scan_header(seq![0x7bu8], limit).depth == 1,
        scan_header(seq![0x7bu8], limit).entries.len() == 0,
        ({
            let named = text + seq![0x22u8] + name + seq![0x22u8, 0x3au8];
            let before = scan_header(text, limit).entries;
            let object = scan_header(named + seq![0x7bu8], limit);
            let list = scan_header(named + seq![0x5bu8], limit);
            &&& object.entries == before.push(HeaderEntry { name, fits: true })
            &&& list.entries == object.entries
            &&& object.depth == 2 && !object.listed
            &&& list.depth == 2 && list.listed && list.fields == 0
            &&& scan_header(named + seq![0x7bu8, 0x7du8], limit).depth == 1
            &&& scan_header(named + seq![0x5bu8, 0x5du8], limit).depth == 1
        }),
{
    assert(seq![0x7bu8] =~= Seq::<u8>::empty().push(0x7b));
    lemma_scan_push(Seq::empty(), 0x7b, limit);
    lemma_scan_literal(text, name, limit);
    law_plain_literals_stand_for_themselves(name);
    let literal = text.push(0x22) + name;
    lemma_scan_push(literal, 0x22, limit);
    lemma_scan_push(literal.push(0x22), 0x3a, limit);
    let named = literal.push(0x22).push(0x3a);
    assert(named =~= text + seq![0x22u8] + name + seq![0x22u8, 0x3au8]);
    lemma_scan_push(named, 0x7b, limit);
    lemma_scan_push(named, 0x5b, limit);
    lemma_scan_push(named.push(0x7b), 0x7d, limit);
    lemma_scan_push(named.push(0x5b), 0x5d, limit);
    assert(named + seq![0x7bu8] =~= named.push(0x7b));
    assert(named + seq![0x5bu8] =~= named.push(0x5b));
    assert(named + seq![0x7bu8, 0x7du8] =~= named.push(0x7b).push(0x7d));
    assert(named + seq![0x5bu8, 0x5du8] =~= named.push(0x5b).push(0x5d));
}

/// A comma between the fields of a tensor that is a list leads to the next field, and a field that
/// is a list or an object is passed without counting its own commas.
pub proof fn law_fields_are_counted_by_their_commas(text: Seq<u8>, limit: nat)
    requires
        !scan_header(text, limit).in_string,
    ensures
        ({
            let before = scan_header(text, limit);
            let after = scan_header(text.push(0x2c), limit);
            &&& after.depth == before.depth
            &&& after.entries == before.entries
            &&& before.depth == 2 ==> after.fields == before.fields + 1
            &&& before.depth != 2 ==> after.fields == before.fields
            &&& before.depth == 3 ==> after.items == before.items + 1
            &&& before.depth != 3 ==> after.items == before.items
        }),
{
    lemma_scan_push(text, 0x2c, limit);
}

/// The header of an archive are the bytes behind its size, as many as that says, where there are so
/// many.
pub proof fn law_header_follows_its_size(bytes: Seq<u8>, i: int)
    requires
        bytes.len() >= 8,
        header_size(bytes) <= bytes.len() - 8,
        0 <= i < header_size(bytes),
    ensures
        header_text(bytes).len() == header_size(bytes),
        header_text(bytes)[i] == bytes[8 + i],
{
}

/// A character takes as many bytes in UTF-8 as its number needs, and the bytes hold that number.
pub proof fn law_utf8_holds_the_number(code: int)
    requires
        0 <= code < 0x11_0000,
    ensures
        ({
            let bytes = utf8(code);
            &&& code < 0x80 ==> bytes.len() == 1 && bytes[0] == code
            &&& 0x80 <= code < 0x800 ==> {
                &&& bytes.len() == 2
                &&& 0xc0 <= bytes[0] < 0xe0
                &&& 0x80 <= bytes[1] < 0xc0
                &&& code == (bytes[0] - 0xc0) * 0x40 + (bytes[1] - 0x80)
            }
            &&& 0x800 <= code < 0x1_0000 ==> {
                &&& bytes.len() == 3
                &&& 0xe0 <= bytes[0] < 0xf0
                &&& 0x80 <= bytes[1] < 0xc0
                &&& 0x80 <= bytes[2] < 0xc0
                &&& code == (bytes[0] - 0xe0) * 0x1000 + (bytes[1] - 0x80) * 0x40 + (bytes[2]
                    - 0x80)
            }
            &&& 0x1_0000 <= code ==> {
                &&& bytes.len() == 4
                &&& 0xf0 <= bytes[0] < 0xf8
                &&& 0x80 <= bytes[1] < 0xc0
                &&& 0x80 <= bytes[2] < 0xc0
                &&& 0x80 <= bytes[3] < 0xc0
                &&& code == (bytes[0] - 0xf0) * 0x4_0000 + (bytes[1] - 0x80) * 0x1000 + (bytes[2]
                    - 0x80) * 0x40 + (bytes[3] - 0x80)
            }
        }),
{
}

/// Hexadecimal digits count from zero to fifteen, in either case.
pub proof fn law_hexadecimal_digits_count_to_fifteen(digit: u8)
    ensures
        hex_value(digit) < 16 <==> 0x30 <= digit <= 0x39 || 0x41 <= digit <= 0x46 || 0x61 <= digit
            <= 0x66,
        hex_value(0x30) == 0,
        0x30 <= digit < 0x39 ==> hex_value((digit + 1) as u8) == hex_value(digit) + 1,
        hex_value(0x41) == hex_value(0x39) + 1,
        0x41 <= digit < 0x46 ==> hex_value((digit + 1) as u8) == hex_value(digit) + 1,
        0x41 <= digit <= 0x46 ==> hex_value((digit + 0x20) as u8) == hex_value(digit),
{
}

/// Four escaped hexadecimal digits stand for the character of their number; two such groups that
/// are a surrogate pair stand for one character beyond the first plane.
pub proof fn law_escaped_numbers_stand_for_characters(
    unit: Seq<u8>,
    low: Seq<u8>,
    rest: Seq<u8>,
    code: int,
    low_code: int,
)
    requires
        unit.len() == 4,
        low.len() == 4,
        code == hex_value(unit[0]) * 0x1000 + hex_value(unit[1]) * 0x100 + hex_value(unit[2]) * 0x10
            + hex_value(unit[3]),
        low_code == hex_value(low[0]) * 0x1000 + hex_value(low[1]) * 0x100 + hex_value(low[2])
            * 0x10 + hex_value(low[3]),
    ensures
        !(0xd800 <= code < 0xdc00) ==> decoded(seq![0x5cu8, 0x75u8] + unit + rest) == utf8(code)
            + decoded(rest),
        0xd800 <= code < 0xdc00 && 0xdc00 <= low_code < 0xe000 ==> decoded(
            seq![0x5cu8, 0x75u8] + unit + seq![0x5cu8, 0x75u8] + low + rest,
        ) == utf8(0x1_0000 + (code - 0xd800) * 0x400 + (low_code - 0xdc00)) + decoded(rest),
{
    let one = seq![0x5cu8, 0x75u8] + unit + rest;
    let two = seq![0x5cu8, 0x75u8] + unit + seq![0x5cu8, 0x75u8] + low + rest;
    assert(one[2] == unit[0] && one[3] == unit[1] && one[4] == unit[2] && one[5] == unit[3]);
    assert(hex_unit(one, 2) == code);
    assert(one.skip(6) =~= rest);
    assert(two[2] == unit[0] && two[3] == unit[1] && two[4] == unit[2] && two[5] == unit[3]);
    assert(two[8] == low[0] && two[9] == low[1] && two[10] == low[2] && two[11] == low[3]);
    assert(hex_unit(two, 2) == code);
    assert(hex_unit(two, 8) == low_code);
    assert(two.skip(12) =~= rest);
}

} // verus!
