//! The names of a layer's files.
//!
//! A layer is stored under a name of six fields joined by `_`: the four
//! numbers of its relation tag in decimal, then its start and end LSN, each
//! as 16 upper-case hexadecimal digits. The file with the relation sizes has
//! the same name with `_relsizes` appended.

use crate::digits::{
    decimal_digits, digit_value, digits_value, hex_digits, lemma_decimal_digits,
    lemma_hex_digits_shape, lemma_hex_digits_value, lemma_pow16_of_16, parse_radix,
    parse_unsigned, push_decimal, push_hex, to_chars,
};
use crate::lsn::Lsn;
use crate::repository::RelTag;
use vstd::prelude::*;
use vstd::string::StringExecFns;

verus! {

/// The separator, as a sequence of one character.
pub open spec fn separator() -> Seq<char> {
    seq!['_']
}

/// What is appended to a layer's name to name its file of relation sizes.
pub open spec fn relsizes_suffix() -> Seq<char> {
    seq!['_', 'r', 'e', 'l', 's', 'i', 'z', 'e', 's']
}

/// The name under which the layer of `tag` for `start_lsn..end_lsn` is stored.
pub open spec fn spec_file_name(tag: RelTag, start_lsn: Lsn, end_lsn: Lsn) -> Seq<char> {
    decimal_digits(tag.spcnode as nat) + separator() + decimal_digits(tag.dbnode as nat)
        + separator() + decimal_digits(tag.relnode as nat) + separator() + decimal_digits(
        tag.forknum as nat,
    ) + separator() + hex_digits(start_lsn@ as nat, 16) + separator() + hex_digits(
        end_lsn@ as nat,
        16,
    )
}

/// Where the field that starts at `from` ends: at the next `_`, or at the
/// end of the name.
pub open spec fn field_end(s: Seq<char>, from: int) -> int
    decreases s.len() - from,
{
    if from >= s.len() {
        s.len() as int
    } else if s[from] == '_' {
        from
    } else {
        field_end(s, from + 1)
    }
}

/// Where field number `k` starts, counting from 0, if the name has that
/// many fields: each field but the first starts behind the `_` that ends the
/// field before it.
pub open spec fn field_start(s: Seq<char>, k: nat) -> Option<int>
    decreases k,
{
    if k == 0 {
        Some(0)
    } else {
        match field_start(s, (k - 1) as nat) {
            Some(b) => if field_end(s, b) < s.len() {
                Some(field_end(s, b) + 1)
            } else {
                None
            },
            None => None,
        }
    }
}

/// Field number `k` of a name split at each `_`.
pub open spec fn field(s: Seq<char>, k: nat) -> Option<Seq<char>> {
    match field_start(s, k) {
        Some(b) => Some(s.subrange(b, field_end(s, b))),
        None => None,
    }
}

/// Field number `k` as a number, if the field is there and well formed.
pub open spec fn number_field(s: Seq<char>, k: nat, radix: nat, max: nat) -> Option<nat> {
    match field(s, k) {
        Some(f) => parse_unsigned(f, radix, max),
        None => None,
    }
}

/// The identity that a file name encodes: its first six fields, where all
/// of them are there and well formed. Whatever follows a sixth field is not
/// looked at.
pub open spec fn spec_fname_to_tag(s: Seq<char>) -> Option<(RelTag, Lsn, Lsn)> {
    match (
        number_field(s, 0, 10, u32::MAX as nat),
        number_field(s, 1, 10, u32::MAX as nat),
        number_field(s, 2, 10, u32::MAX as nat),
        number_field(s, 3, 10, u8::MAX as nat),
        number_field(s, 4, 16, u64::MAX as nat),
        number_field(s, 5, 16, u64::MAX as nat),
    ) {
        (Some(spcnode), Some(dbnode), Some(relnode), Some(forknum), Some(start), Some(end)) => Some(
            (
                RelTag {
                    spcnode: spcnode as u32,
                    dbnode: dbnode as u32,
                    relnode: relnode as u32,
                    forknum: forknum as u8,
                },
                Lsn(start as u64),
                Lsn(end as u64),
            ),
        ),
        _ => None,
    }
}

/// Whether a name is that of a file of relation sizes.
pub open spec fn is_relsizes_name(s: Seq<char>) -> bool {
    s.len() >= relsizes_suffix().len() && s.subrange(
        s.len() - relsizes_suffix().len(),
        s.len() as int,
    ) == relsizes_suffix()
}

/// The layer that a directory entry stands for: what its name encodes,
/// unless it is a file of relation sizes, which stands for no layer of its
/// own.
pub open spec fn spec_layer_of_entry(s: Seq<char>) -> Option<(RelTag, Lsn, Lsn)> {
    if is_relsizes_name(s) {
        None
    } else {
        spec_fname_to_tag(s)
    }
}

/// A field ends where the first `_` at or behind its start stands.
pub proof fn lemma_field_end(s: Seq<char>, from: int, end: int)
    requires
        0 <= from <= end <= s.len(),
        forall|i: int| from <= i < end ==> s[i] != '_',
        end == s.len() || s[end] == '_',
    ensures
        field_end(s, from) == end,
    decreases end - from,
{
    if from < end {
        lemma_field_end(s, from + 1, end);
    }
}

/// A field's end is within the name, at or behind the field's start, and
/// the field holds no `_`.
pub proof fn lemma_field_end_bounds(s: Seq<char>, from: int)
    requires
        0 <= from <= s.len(),
    ensures
        from <= field_end(s, from) <= s.len(),
        forall|i: int| from <= i < field_end(s, from) ==> s[i] != '_',
        field_end(s, from) == s.len() || s[field_end(s, from)] == '_',
    decreases s.len() - from,
{
    if from < s.len() && s[from] != '_' {
        lemma_field_end_bounds(s, from + 1);
    }
}

/// `s` is text of digits only that denotes `n`.
pub open spec fn is_number_text(s: Seq<char>, radix: nat, n: nat) -> bool {
    &&& s.len() >= 1
    &&& forall|i: int| 0 <= i < s.len() ==> digit_value(#[trigger] s[i], radix) is Some
    &&& digits_value(s, radix) == Some(n)
}

/// Text of digits holds no `_`, and is read back as its number where the
/// number is within the limit.
proof fn lemma_number_text(s: Seq<char>, radix: nat, n: nat, max: nat)
    requires
        is_number_text(s, radix, n),
        n <= max,
    ensures
        parse_unsigned(s, radix, max) == Some(n),
        forall|i: int| 0 <= i < s.len() ==> s[i] != '_',
        s[s.len() - 1] != 's',
{
    assert(digit_value(s[0], radix) is Some);
    assert(digit_value(s[s.len() - 1], radix) is Some);
    assert forall|i: int| 0 <= i < s.len() implies s[i] != '_' by {
        assert(digit_value(s[i], radix) is Some);
    }
}

/// `front`, a `_` and `next`.
pub open spec fn with_field(front: Seq<char>, next: Seq<char>) -> Seq<char> {
    front + separator() + next
}

/// The name's field number `k`, its last, starts at `from`.
pub open spec fn last_field_at(s: Seq<char>, k: nat, from: int) -> bool {
    &&& field_start(s, k) == Some(from)
    &&& 0 <= from <= s.len()
    &&& forall|i: int| from <= i < s.len() ==> s[i] != '_'
}

/// Appending a field leaves the ends of the fields before it where they
/// were.
proof fn lemma_field_end_kept(front: Seq<char>, next: Seq<char>, b: int)
    requires
        0 <= b <= front.len(),
    ensures
        field_end(with_field(front, next), b) == field_end(front, b),
    decreases front.len() - b,
{
    let name = with_field(front, next);
    if b == front.len() {
        assert(name[b] == '_');
    } else {
        assert(name[b] == front[b]);
        if front[b] != '_' {
            lemma_field_end_kept(front, next, b + 1);
        }
    }
}

/// Where a name has field number `k`, it has each field before it, and
/// those end before the name does.
proof fn lemma_field_start_earlier(s: Seq<char>, k: nat, j: nat)
    requires
        j <= k,
        field_start(s, k) is Some,
    ensures
        field_start(s, j) is Some,
        0 <= field_start(s, j)->0 <= s.len(),
        j < k ==> field_end(s, field_start(s, j)->0) < s.len(),
    decreases k,
{
    if k > 0 {
        lemma_field_start_earlier(s, (k - 1) as nat, (k - 1) as nat);
        lemma_field_end_bounds(s, field_start(s, (k - 1) as nat)->0);
        if j < k {
            lemma_field_start_earlier(s, (k - 1) as nat, j);
        }
    }
}

/// Appending a field leaves the fields before it as they were.
proof fn lemma_field_kept(front: Seq<char>, next: Seq<char>, k: nat, j: nat)
    requires
        j <= k,
        field_start(front, k) is Some,
    ensures
        field_start(with_field(front, next), j) == field_start(front, j),
        field(with_field(front, next), j) == field(front, j),
    decreases j,
{
    let name = with_field(front, next);
    lemma_field_start_earlier(front, k, j);
    if j > 0 {
        lemma_field_kept(front, next, k, (j - 1) as nat);
        lemma_field_start_earlier(front, k, (j - 1) as nat);
        lemma_field_end_kept(front, next, field_start(front, (j - 1) as nat)->0);
    }
    let b = field_start(front, j)->0;
    lemma_field_end_kept(front, next, b);
    lemma_field_end_bounds(front, b);
    assert(name.subrange(b, field_end(front, b)) =~= front.subrange(b, field_end(front, b)));
}

/// Appending a field to a name of `k + 1` fields gives a name whose field
/// number `k + 1` is the new one.
proof fn lemma_field_appended(front: Seq<char>, next: Seq<char>, k: nat, from: int)
    requires
        last_field_at(front, k, from),
        forall|i: int| 0 <= i < next.len() ==> next[i] != '_',
    ensures
        last_field_at(with_field(front, next), k + 1, front.len() as int + 1),
        field(with_field(front, next), k + 1) == Some(next),
{
    let name = with_field(front, next);
    let start = front.len() as int + 1;
    lemma_field_kept(front, next, k, k);
    lemma_field_end_kept(front, next, from);
    lemma_field_end(front, from, front.len() as int);
    assert(field_start(name, k + 1) == Some(start));
    assert forall|i: int| start <= i < name.len() implies name[i] != '_' by {
        assert(name[i] == next[i - start]);
    }
    lemma_field_end(name, start, name.len() as int);
    assert(name.subrange(start, name.len() as int) =~= next);
}

/// Six well-formed fields, joined, are read back as what they denote.
proof fn lemma_joined_name(
    a0: Seq<char>,
    a1: Seq<char>,
    a2: Seq<char>,
    a3: Seq<char>,
    a4: Seq<char>,
    a5: Seq<char>,
    n0: nat,
    n1: nat,
    n2: nat,
    n3: nat,
    n4: nat,
    n5: nat,
)
    requires
        is_number_text(a0, 10, n0) && n0 <= u32::MAX,
        is_number_text(a1, 10, n1) && n1 <= u32::MAX,
        is_number_text(a2, 10, n2) && n2 <= u32::MAX,
        is_number_text(a3, 10, n3) && n3 <= u8::MAX,
        is_number_text(a4, 16, n4) && n4 <= u64::MAX,
        is_number_text(a5, 16, n5) && n5 <= u64::MAX,
    ensures
        number_field(join_fields(a0, a1, a2, a3, a4, a5), 0, 10, u32::MAX as nat) == Some(n0),
        number_field(join_fields(a0, a1, a2, a3, a4, a5), 1, 10, u32::MAX as nat) == Some(n1),
        number_field(join_fields(a0, a1, a2, a3, a4, a5), 2, 10, u32::MAX as nat) == Some(n2),
        number_field(join_fields(a0, a1, a2, a3, a4, a5), 3, 10, u8::MAX as nat) == Some(n3),
        number_field(join_fields(a0, a1, a2, a3, a4, a5), 4, 16, u64::MAX as nat) == Some(n4),
        number_field(join_fields(a0, a1, a2, a3, a4, a5), 5, 16, u64::MAX as nat) == Some(n5),
        !is_relsizes_name(join_fields(a0, a1, a2, a3, a4, a5)),
{
    lemma_number_text(a0, 10, n0, u32::MAX as nat);
    lemma_number_text(a1, 10, n1, u32::MAX as nat);
    lemma_number_text(a2, 10, n2, u32::MAX as nat);
    lemma_number_text(a3, 10, n3, u8::MAX as nat);
    lemma_number_text(a4, 16, n4, u64::MAX as nat);
    lemma_number_text(a5, 16, n5, u64::MAX as nat);
    let name0 = a0;
    let name1 = with_field(name0, a1);
    let name2 = with_field(name1, a2);
    let name3 = with_field(name2, a3);
    let name4 = with_field(name3, a4);
    let name5 = with_field(name4, a5);
    assert(name5 == join_fields(a0, a1, a2, a3, a4, a5));
    assert(last_field_at(name0, 0, 0));
    lemma_field_end(name0, 0, name0.len() as int);
    assert(field(name0, 0) == Some(a0)) by {
        assert(name0.subrange(0, name0.len() as int) =~= a0);
    }
    lemma_field_appended(name0, a1, 0, 0);
    lemma_field_appended(name1, a2, 1, name0.len() as int + 1);
    lemma_field_appended(name2, a3, 2, name1.len() as int + 1);
    lemma_field_appended(name3, a4, 3, name2.len() as int + 1);
    lemma_field_appended(name4, a5, 4, name3.len() as int + 1);
    // Field 0 through all five steps, field 1 through four, and so on.
    lemma_field_kept(name0, a1, 0, 0);
    lemma_field_kept(name1, a2, 1, 0);
    lemma_field_kept(name2, a3, 2, 0);
    lemma_field_kept(name3, a4, 3, 0);
    lemma_field_kept(name4, a5, 4, 0);
    lemma_field_kept(name1, a2, 1, 1);
    lemma_field_kept(name2, a3, 2, 1);
    lemma_field_kept(name3, a4, 3, 1);
    lemma_field_kept(name4, a5, 4, 1);
    lemma_field_kept(name2, a3, 2, 2);
    lemma_field_kept(name3, a4, 3, 2);
    lemma_field_kept(name4, a5, 4, 2);
    lemma_field_kept(name3, a4, 3, 3);
    lemma_field_kept(name4, a5, 4, 3);
    lemma_field_kept(name4, a5, 4, 4);
    assert(field(name5, 0) == Some(a0));
    assert(field(name5, 1) == Some(a1));
    assert(field(name5, 2) == Some(a2));
    assert(field(name5, 3) == Some(a3));
    assert(field(name5, 4) == Some(a4));
    assert(field(name5, 5) == Some(a5));
    assert(name5[name5.len() - 1] == a5[a5.len() - 1]);
    if is_relsizes_name(name5) {
        let tail = name5.subrange(name5.len() - 9, name5.len() as int);
        assert(tail[8] == name5[name5.len() - 1]);
        assert(relsizes_suffix()[8] == 's');
    }
}

/// Six fields joined by `_`.
pub open spec fn join_fields(
    a0: Seq<char>,
    a1: Seq<char>,
    a2: Seq<char>,
    a3: Seq<char>,
    a4: Seq<char>,
    a5: Seq<char>,
) -> Seq<char> {
    a0 + separator() + a1 + separator() + a2 + separator() + a3 + separator() + a4 + separator()
        + a5
}

/// A layer's name decodes to the identity that it was made from, and is not
/// the name of a file of relation sizes.
pub proof fn lemma_file_name_roundtrip(tag: RelTag, start_lsn: Lsn, end_lsn: Lsn)
    ensures
        spec_fname_to_tag(spec_file_name(tag, start_lsn, end_lsn)) == Some(
            (tag, start_lsn, end_lsn),
        ),
        !is_relsizes_name(spec_file_name(tag, start_lsn, end_lsn)),
        spec_layer_of_entry(spec_file_name(tag, start_lsn, end_lsn)) == Some(
            (tag, start_lsn, end_lsn),
        ),
{
    let a0 = decimal_digits(tag.spcnode as nat);
    let a1 = decimal_digits(tag.dbnode as nat);
    let a2 = decimal_digits(tag.relnode as nat);
    let a3 = decimal_digits(tag.forknum as nat);
    let a4 = hex_digits(start_lsn@ as nat, 16);
    let a5 = hex_digits(end_lsn@ as nat, 16);
    let name = spec_file_name(tag, start_lsn, end_lsn);
    assert(name == join_fields(a0, a1, a2, a3, a4, a5));
    lemma_decimal_digits(tag.spcnode as nat);
    lemma_decimal_digits(tag.dbnode as nat);
    lemma_decimal_digits(tag.relnode as nat);
    lemma_decimal_digits(tag.forknum as nat);
    lemma_pow16_of_16();
    lemma_hex_digits_shape(start_lsn@ as nat, 16);
    lemma_hex_digits_value(start_lsn@ as nat, 16);
    lemma_hex_digits_shape(end_lsn@ as nat, 16);
    lemma_hex_digits_value(end_lsn@ as nat, 16);
    lemma_joined_name(
        a0,
        a1,
        a2,
        a3,
        a4,
        a5,
        tag.spcnode as nat,
        tag.dbnode as nat,
        tag.relnode as nat,
        tag.forknum as nat,
        start_lsn@ as nat,
        end_lsn@ as nat,
    );
}

/// Where the field that starts at `from` ends.
pub fn find_field_end(s: &Vec<char>, from: usize) -> (end: usize)
    requires
        from <= s.len(),
    ensures
        end == field_end(s@, from as int),
        from <= end <= s.len(),
{
    let mut i: usize = from;
    while i < s.len() && s[i] != '_'
        invariant
            from <= i <= s.len(),
            field_end(s@, i as int) == field_end(s@, from as int),
        decreases s.len() - i,
    {
        i = i + 1;
    }
    i
}

/// Reads the field that starts at `start` as a number; also gives the
/// field's end.
fn take_field(s: &Vec<char>, start: usize, radix: u64, max: u64) -> (r: (Option<u64>, usize))
    requires
        start <= s.len(),
        radix == 10 || radix == 16,
    ensures
        r.1 == field_end(s@, start as int),
        start <= r.1 <= s.len(),
        match parse_unsigned(s@.subrange(start as int, r.1 as int), radix as nat, max as nat) {
            Some(v) => r.0 == Some(v as u64),
            None => r.0 is None,
        },
{
    let end = find_field_end(s, start);
    (parse_radix(s, start, end, radix, max), end)
}

/// Decodes the identity of a layer from the characters of a file name.
pub fn chars_to_tag(s: &Vec<char>) -> (r: Option<(RelTag, Lsn, Lsn)>)
    ensures
        r == spec_fname_to_tag(s@),
{
    let (spcnode, e0) = take_field(s, 0, 10, 0xffff_ffff);
    if spcnode.is_none() || e0 >= s.len() {
        return None;
    }
    assert(field_start(s@, 1) == Some(e0 + 1));
    let (dbnode, e1) = take_field(s, e0 + 1, 10, 0xffff_ffff);
    if dbnode.is_none() || e1 >= s.len() {
        return None;
    }
    assert(field_start(s@, 2) == Some(e1 + 1));
    let (relnode, e2) = take_field(s, e1 + 1, 10, 0xffff_ffff);
    if relnode.is_none() || e2 >= s.len() {
        return None;
    }
    assert(field_start(s@, 3) == Some(e2 + 1));
    let (forknum, e3) = take_field(s, e2 + 1, 10, 0xff);
    if forknum.is_none() || e3 >= s.len() {
        return None;
    }
    assert(field_start(s@, 4) == Some(e3 + 1));
    let (start, e4) = take_field(s, e3 + 1, 16, 0xffff_ffff_ffff_ffff);
    if start.is_none() || e4 >= s.len() {
        return None;
    }
    assert(field_start(s@, 5) == Some(e4 + 1));
    let (end, _e5) = take_field(s, e4 + 1, 16, 0xffff_ffff_ffff_ffff);
    if end.is_none() {
        return None;
    }
    Some(
        (
            RelTag {
                spcnode: spcnode.unwrap() as u32,
                dbnode: dbnode.unwrap() as u32,
                relnode: relnode.unwrap() as u32,
                forknum: forknum.unwrap() as u8,
            },
            Lsn(start.unwrap()),
            Lsn(end.unwrap()),
        ),
    )
}

/// Decodes the identity of a layer from a file name. `None` says that the
/// name is not that of a layer: the directory may hold other files.
pub fn fname_to_tag(fname: &str) -> (r: Option<(RelTag, Lsn, Lsn)>)
    ensures
        r == spec_fname_to_tag(fname@),
{
    let s = to_chars(fname);
    chars_to_tag(&s)
}

/// Whether the characters are a name that ends in `_relsizes`.
pub fn chars_are_relsizes_name(s: &Vec<char>) -> (b: bool)
    ensures
        b == is_relsizes_name(s@),
{
    let n = s.len();
    if n < 9 {
        return false;
    }
    let b = s[n - 9] == '_' && s[n - 8] == 'r' && s[n - 7] == 'e' && s[n - 6] == 'l' && s[n - 5]
        == 's' && s[n - 4] == 'i' && s[n - 3] == 'z' && s[n - 2] == 'e' && s[n - 1] == 's';
    proof {
        let tail = s@.subrange(n - 9, n as int);
        if b {
            assert(tail =~= relsizes_suffix());
        } else {
            if tail == relsizes_suffix() {
                assert(tail[0] == '_' && tail[1] == 'r' && tail[2] == 'e' && tail[3] == 'l'
                    && tail[4] == 's' && tail[5] == 'i' && tail[6] == 'z' && tail[7] == 'e'
                    && tail[8] == 's');
            }
        }
    }
    b
}

/// The layer that a directory entry of this name stands for.
pub fn layer_of_entry(fname: &str) -> (r: Option<(RelTag, Lsn, Lsn)>)
    ensures
        r == spec_layer_of_entry(fname@),
{
    let s = to_chars(fname);
    if chars_are_relsizes_name(&s) {
        None
    } else {
        chars_to_tag(&s)
    }
}

/// The name under which the layer of `tag` for `start_lsn..end_lsn` is stored.
pub fn file_name_for(tag: RelTag, start_lsn: Lsn, end_lsn: Lsn) -> (name: String)
    ensures
        name@ == spec_file_name(tag, start_lsn, end_lsn),
{
    let mut name = String::new();
    push_decimal(&mut name, tag.spcnode);
    name.push('_');
    push_decimal(&mut name, tag.dbnode);
    name.push('_');
    push_decimal(&mut name, tag.relnode);
    name.push('_');
    push_decimal(&mut name, tag.forknum as u32);
    name.push('_');
    push_hex(&mut name, start_lsn.0, 16);
    name.push('_');
    push_hex(&mut name, end_lsn.0, 16);
    assert(name@ =~= spec_file_name(tag, start_lsn, end_lsn));
    name
}

/// The name of the file of relation sizes that belongs to a layer's file.
pub fn relsizes_file_name(name: &str) -> (r: String)
    ensures
        r@ == name@ + relsizes_suffix(),
{
    let mut r = String::from_str(name);
    r.append("_relsizes");
    proof {
        reveal_strlit("_relsizes");
        assert("_relsizes"@ =~= relsizes_suffix());
    }
    r
}

} // verus!
