//! The strings that a file holds, and the table that it leaves for the dynamic linker.
use vstd::prelude::*;

use crate::bytes;
use crate::image;
use crate::image::ObjectImage;
use crate::order;
use crate::text;

verus! {

/// The string that starts at `offset` and ends before the next zero byte, decoded; `None` where no
/// zero byte follows.
pub open spec fn cstr_at(data: Seq<u8>, offset: int) -> Option<Seq<char>> {
    match zero_from(data, offset) {
        Some(end) => Some(text::lossy_text(data.subrange(offset, end))),
        None => None,
    }
}

/// The first zero byte at or after `from`.
pub open spec fn zero_from(data: Seq<u8>, from: int) -> Option<int>
    decreases data.len() - from,
{
    if from >= data.len() {
        None
    } else if data[from] == 0 {
        Some(from)
    } else {
        zero_from(data, from + 1)
    }
}

/// The string that starts at `offset`, up to the next zero byte.
pub fn read_cstr(data: &[u8], offset: usize) -> (r: Option<String>)
    ensures
        image::text_option(r) == cstr_at(data@, offset as int),
{
    let mut end: usize = offset;
    while end < data.len()
        invariant
            offset <= end,
            offset < data@.len() ==> end <= data@.len(),
            zero_from(data@, offset as int) == zero_from(data@, end as int),
        decreases data@.len() - end,
    {
        if data[end] == 0 {
            return Some(text::lossy(vstd::slice::slice_subrange(data, offset, end)));
        }
        end = end + 1;
    }
    None
}

/// The pieces of the data between its zero bytes, empty ones too.
pub open spec fn zero_split(data: Seq<u8>) -> Seq<Seq<u8>>
    decreases data.len(),
{
    if data.len() == 0 {
        seq![Seq::empty()]
    } else {
        let rest = zero_split(data.drop_last());
        if data.last() == 0 {
            rest.push(Seq::empty())
        } else {
            rest.drop_last().push(rest.last().push(data.last()))
        }
    }
}

/// The texts of the pieces that are not empty.
pub open spec fn piece_texts(pieces: Seq<Seq<u8>>) -> Seq<Seq<char>>
    decreases pieces.len(),
{
    if pieces.len() == 0 {
        Seq::empty()
    } else if pieces.last().len() == 0 {
        piece_texts(pieces.drop_last())
    } else {
        piece_texts(pieces.drop_last()).push(text::lossy_text(pieces.last()))
    }
}

/// What the compilers left in the comment section, each remark once, in ascending order.
pub open spec fn compiler_remarks(file: image::ImageModel) -> Seq<Seq<char>> {
    match file.comment {
        Some(section) => match section.data {
            Some(data) => order::sorted_distinct(
                piece_texts(zero_split(data)),
                order::rank_lt::<String>(),
            ),
            None => Seq::empty(),
        },
        None => Seq::empty(),
    }
}

/// The texts between the zero bytes of the data.
fn read_pieces(data: &[u8]) -> (r: Vec<String>)
    ensures
        text::texts(r@) == piece_texts(zero_split(data@)),
{
    let mut done: Vec<String> = Vec::new();
    let mut current: Vec<u8> = Vec::new();
    let mut i: usize = 0;
    assert(data@.take(0) =~= Seq::empty());
    assert(current@ =~= Seq::empty());
    assert(text::texts(done@) =~= Seq::empty());
    assert(zero_split(data@.take(0)).drop_last() =~= Seq::empty());
    while i < data.len()
        invariant
            i <= data@.len(),
            zero_split(data@.take(i as int)).len() > 0,
            current@ == zero_split(data@.take(i as int)).last(),
            text::texts(done@) == piece_texts(zero_split(data@.take(i as int)).drop_last()),
        decreases data@.len() - i,
    {
        let ghost pieces = zero_split(data@.take(i as int));
        let ghost now = zero_split(data@.take(i + 1));
        proof {
            assert(data@.take(i + 1).drop_last() =~= data@.take(i as int));
            assert(data@.take(i + 1).last() == data@[i as int]);
        }
        let b = data[i];
        if b == 0 {
            assert(now == pieces.push(Seq::empty()));
            assert(now.drop_last() =~= pieces);
            if current.len() > 0 {
                let ghost before = done@;
                let remark = text::lossy(current.as_slice());
                let ghost chars = remark@;
                done.push(remark);
                assert(text::texts(done@) =~= text::texts(before).push(chars));
            }
            current = Vec::new();
            assert(current@ =~= Seq::empty());
        } else {
            current.push(b);
            assert(now.drop_last() =~= pieces.drop_last());
        }
        i = i + 1;
    }
    assert(data@.take(i as int) =~= data@);
    if current.len() > 0 {
        let ghost before = done@;
        let remark = text::lossy(current.as_slice());
        let ghost chars = remark@;
        done.push(remark);
        assert(text::texts(done@) =~= text::texts(before).push(chars));
    }
    done
}

pub(crate) fn read_compiler_info(file: &ObjectImage) -> (r: Vec<String>)
    ensures
        text::texts(r@) == compiler_remarks(file@),
{
    if let Some(section) = &file.comment {
        if let Some(data) = &section.data {
            return order::sorted_texts(&read_pieces(data.as_slice()));
        }
    }
    let none: Vec<String> = Vec::new();
    assert(text::texts(none@) =~= Seq::empty());
    none
}

/// The tag that ends the dynamic table.
pub const DT_NULL: u64 = 0;

/// The tag of an entry that names a library.
pub const DT_NEEDED: u64 = 1;

/// The tag of an entry that asks for all symbols to be bound at start.
pub const DT_BIND_NOW: u64 = 24;

/// The tag of an entry that holds flags.
pub const DT_FLAGS: u64 = 30;

/// The flag that asks for all symbols to be bound at start.
pub const DF_BIND_NOW: u64 = 8;

/// The entries before the first one that ends the table.
pub open spec fn until_null(entries: Seq<(u64, u64)>) -> Seq<(u64, u64)>
    decreases entries.len(),
{
    if entries.len() == 0 || entries[0].0 == DT_NULL {
        Seq::empty()
    } else {
        seq![entries[0]] + until_null(entries.drop_first())
    }
}

/// The entries of the dynamic table of a file: each a tag and a value.
pub open spec fn file_entries(file: image::ImageModel) -> Seq<(u64, u64)> {
    match file.dynamic {
        Some(section) => match section.data {
            Some(data) => until_null(bytes::word_pairs(data)),
            None => Seq::empty(),
        },
        None => Seq::empty(),
    }
}

fn dynamic_entries(file: &ObjectImage) -> (r: Vec<(u64, u64)>)
    ensures
        r@ == file_entries(file@),
{
    let mut entries: Vec<(u64, u64)> = Vec::new();
    if let Some(section) = &file.dynamic {
        if let Some(data) = &section.data {
            let pairs = bytes::read_word_pairs(data.as_slice());
            let mut i: usize = 0;
            assert(pairs@.skip(0) =~= pairs@);
            while i < pairs.len()
                invariant
                    i <= pairs.len(),
                    entries@ + until_null(pairs@.skip(i as int)) == until_null(pairs@),
                    until_null(pairs@) == file_entries(file@),
                decreases pairs.len() - i,
            {
                assert(pairs@.skip(i as int)[0] == pairs@[i as int]);
                if pairs[i].0 == DT_NULL {
                    assert(entries@ =~= until_null(pairs@));
                    return entries;
                }
                let ghost before = entries@;
                entries.push(pairs[i]);
                assert(pairs@.skip(i as int).drop_first() =~= pairs@.skip(i + 1));
                assert(entries@ + until_null(pairs@.skip(i + 1)) =~= before + until_null(
                    pairs@.skip(i as int),
                ));
                i = i + 1;
            }
            assert(entries@ =~= until_null(pairs@));
        }
    }
    entries
}

/// Some entry has that tag.
pub open spec fn has_tag(entries: Seq<(u64, u64)>, tag: u64) -> bool {
    exists|i: int| 0 <= i < entries.len() && (#[trigger] entries[i]).0 == tag
}

/// Some entry has that tag and the bit in its value.
pub open spec fn has_tag_bit(entries: Seq<(u64, u64)>, tag: u64, bit: u64) -> bool {
    exists|i: int|
        0 <= i < entries.len() && (#[trigger] entries[i]).0 == tag && entries[i].1 & bit != 0
}

pub(crate) fn has_dynamic_flag(file: &ObjectImage, wanted_tag: u64) -> (r: bool)
    ensures
        r == has_tag(file_entries(file@), wanted_tag),
{
    let entries = dynamic_entries(file);
    let mut i: usize = 0;
    while i < entries.len()
        invariant
            i <= entries.len(),
            entries@ == file_entries(file@),
            forall|k: int| 0 <= k < i ==> (#[trigger] entries@[k]).0 != wanted_tag,
        decreases entries.len() - i,
    {
        if entries[i].0 == wanted_tag {
            assert(entries@[i as int].0 == wanted_tag);
            return true;
        }
        i = i + 1;
    }
    false
}

pub(crate) fn has_dynamic_flag_value(file: &ObjectImage, wanted_tag: u64, bit: u64) -> (r: bool)
    ensures
        r == has_tag_bit(file_entries(file@), wanted_tag, bit),
{
    let entries = dynamic_entries(file);
    let mut i: usize = 0;
    while i < entries.len()
        invariant
            i <= entries.len(),
            entries@ == file_entries(file@),
            forall|k: int|
                0 <= k < i ==> !((#[trigger] entries@[k]).0 == wanted_tag && entries@[k].1 & bit
                    != 0),
        decreases entries.len() - i,
    {
        if entries[i].0 == wanted_tag && entries[i].1 & bit != 0 {
            assert(entries@[i as int].0 == wanted_tag);
            return true;
        }
        i = i + 1;
    }
    false
}

/// The libraries that the entries name in the string table.
pub open spec fn libraries(entries: Seq<(u64, u64)>, strings: Seq<u8>) -> Seq<Seq<char>>
    decreases entries.len(),
{
    if entries.len() == 0 {
        Seq::empty()
    } else {
        let rest = libraries(entries.drop_last(), strings);
        let last = entries.last();
        match cstr_at(strings, last.1 as usize as int) {
            Some(name) => if last.0 == DT_NEEDED {
                rest.push(name)
            } else {
                rest
            },
            None => rest,
        }
    }
}

/// The libraries that a file needs, in the order in which it names them.
pub open spec fn file_libraries(file: image::ImageModel) -> Seq<Seq<char>> {
    match file.dynstr {
        Some(section) => match section.data {
            Some(data) => libraries(file_entries(file), data),
            None => Seq::empty(),
        },
        None => Seq::empty(),
    }
}

pub(crate) fn read_needed_libs(file: &ObjectImage) -> (r: Vec<String>)
    ensures
        text::texts(r@) == file_libraries(file@),
{
    let mut libs: Vec<String> = Vec::new();
    assert(text::texts(libs@) =~= Seq::empty());
    let dynstr = match &file.dynstr {
        Some(section) => section,
        None => {
            return libs;
        },
    };
    let data = match &dynstr.data {
        Some(data) => data,
        None => {
            return libs;
        },
    };
    let entries = dynamic_entries(file);
    let mut i: usize = 0;
    while i < entries.len()
        invariant
            i <= entries.len(),
            text::texts(libs@) == libraries(entries@.take(i as int), data@),
        decreases entries.len() - i,
    {
        let (tag, value) = entries[i];
        proof {
            assert(entries@.take(i + 1).drop_last() =~= entries@.take(i as int));
            assert(entries@.take(i + 1).last() == (tag, value));
        }
        if tag == DT_NEEDED {
            if let Some(name) = read_cstr(data.as_slice(), value as usize) {
                let ghost before = libs@;
                let ghost chars = name@;
                libs.push(name);
                assert(text::texts(libs@) =~= text::texts(before).push(chars));
            }
        }
        i = i + 1;
    }
    assert(entries@.take(i as int) =~= entries@);
    libs
}

/// A string in a table ends where the first zero byte behind its start does, so it holds none.
pub proof fn lemma_cstr_without_zero(data: Seq<u8>, offset: int)
    requires
        0 <= offset,
    ensures
        match zero_from(data, offset) {
            Some(end) => offset <= end < data.len() && data[end] == 0 && forall|i: int|
                offset <= i < end ==> #[trigger] data[i] != 0,
            None => forall|i: int| offset <= i < data.len() ==> #[trigger] data[i] != 0,
        },
    decreases data.len() - offset,
{
    if offset < data.len() && data[offset] != 0 {
        lemma_cstr_without_zero(data, offset + 1);
    }
}

/// A string ends before the first zero byte at or behind its start; where none follows, there is no
/// string.
pub proof fn lemma_cstr_ends_at_zero(data: Seq<u8>, offset: int, end: int)
    requires
        0 <= offset,
    ensures
        offset <= end < data.len() && data[end] == 0 && (forall|i: int|
            offset <= i < end ==> #[trigger] data[i] != 0) ==> cstr_at(data, offset) == Some(
            text::lossy_text(data.subrange(offset, end)),
        ),
        (forall|i: int| offset <= i < data.len() ==> #[trigger] data[i] != 0) ==> cstr_at(
            data,
            offset,
        ) is None,
{
    lemma_cstr_without_zero(data, offset);
    if offset <= end < data.len() && data[end] == 0 && (forall|i: int|
        offset <= i < end ==> #[trigger] data[i] != 0) {
        match zero_from(data, offset) {
            Some(found) => {
                if found < end {
                    assert(data[found] != 0);
                }
                if end < found {
                    assert(data[end] != 0);
                }
            },
            None => {
                assert(data[end] != 0);
            },
        }
    }
}

/// The pieces one behind the other, with a zero byte between neighbours.
pub open spec fn rejoined(pieces: Seq<Seq<u8>>) -> Seq<u8>
    decreases pieces.len(),
{
    if pieces.len() == 0 {
        Seq::empty()
    } else if pieces.len() == 1 {
        pieces[0]
    } else {
        rejoined(pieces.drop_last()).push(0) + pieces.last()
    }
}

/// Cutting data at its zero bytes loses nothing, and leaves no zero byte in a piece.
pub proof fn lemma_zero_split(data: Seq<u8>)
    ensures
        zero_split(data).len() > 0,
        rejoined(zero_split(data)) == data,
        forall|i: int, k: int|
            0 <= i < zero_split(data).len() && 0 <= k < zero_split(data)[i].len()
                ==> #[trigger] zero_split(data)[i][k] != 0,
    decreases data.len(),
{
    let pieces = zero_split(data);
    if data.len() > 0 {
        let front = data.drop_last();
        let before = zero_split(front);
        lemma_zero_split(front);
        assert(front.push(data.last()) =~= data);
        if data.last() == 0 {
            assert(pieces.drop_last() =~= before);
            assert(rejoined(pieces) =~= rejoined(before).push(0));
        } else {
            assert(pieces.drop_last() =~= before.drop_last());
            if pieces.len() == 1 {
                assert(pieces[0] =~= before[0].push(data.last()));
            } else {
                assert(rejoined(pieces) =~= rejoined(before).push(data.last()));
            }
            assert forall|i: int, k: int|
                0 <= i < pieces.len() && 0 <= k < pieces[i].len() implies #[trigger] pieces[i][k]
                != 0 by {
                if i < before.len() - 1 {
                    assert(pieces[i] == before[i]);
                    assert(before[i][k] != 0);
                } else if k < before.last().len() {
                    assert(before[before.len() - 1][k] != 0);
                }
            }
        }
    }
}

/// The texts of pieces are those of the pieces that are not empty, in their order.
pub proof fn lemma_piece_texts(pieces: Seq<Seq<u8>>)
    ensures
        piece_texts(pieces) == pieces.filter(|piece: Seq<u8>| piece.len() > 0).map_values(
            |piece: Seq<u8>| text::lossy_text(piece),
        ),
    decreases pieces.len(),
{
    let some = |piece: Seq<u8>| piece.len() > 0;
    let decoded = |piece: Seq<u8>| text::lossy_text(piece);
    reveal(Seq::filter);
    if pieces.len() > 0 {
        let front = pieces.drop_last();
        lemma_piece_texts(front);
        if some(pieces.last()) {
            assert(pieces.filter(some).map_values(decoded) =~= front.filter(some).map_values(
                decoded,
            ).push(decoded(pieces.last())));
        }
    } else {
        assert(pieces.filter(some).map_values(decoded) =~= Seq::empty());
    }
}

/// The remarks of the compilers are the texts of the pieces of the comment section that are not
/// empty, each once, from the least on.
pub proof fn lemma_remarks(file: image::ImageModel, data: Seq<u8>, remark: Seq<char>)
    ensures
        file.comment is None || file.comment->0.data is None ==> compiler_remarks(file) == Seq::<
            Seq<char>,
        >::empty(),
        file.comment is Some && file.comment->0.data == Some(data) ==> {
            let remarks = compiler_remarks(file);
            &&& order::ascending(remarks, order::rank_lt::<String>())
            &&& remarks.contains(remark) <==> exists|i: int|
                {
                    &&& 0 <= i < zero_split(data).len()
                    &&& (#[trigger] zero_split(data)[i]).len() > 0
                    &&& text::lossy_text(zero_split(data)[i]) == remark
                }
        },
{
    if file.comment is Some && file.comment->0.data == Some(data) {
        let pieces = zero_split(data);
        let found = piece_texts(pieces);
        let remarks = compiler_remarks(file);
        <String as order::Ranked>::lemma_strict();
        order::lemma_sorted_distinct(found, order::rank_lt::<String>());
        assert(remarks.to_set().contains(remark) == found.to_set().contains(remark));
        lemma_piece_among(pieces, remark);
    }
}

proof fn lemma_piece_among(pieces: Seq<Seq<u8>>, remark: Seq<char>)
    ensures
        piece_texts(pieces).contains(remark) <==> exists|i: int|
            {
                &&& 0 <= i < pieces.len()
                &&& (#[trigger] pieces[i]).len() > 0
                &&& text::lossy_text(pieces[i]) == remark
            },
    decreases pieces.len(),
{
    if pieces.len() > 0 {
        let front = pieces.drop_last();
        let last = pieces.len() - 1;
        let rest = piece_texts(front);
        let all = piece_texts(pieces);
        lemma_piece_among(front, remark);
        assert(pieces[last] == pieces.last());
        if rest.contains(remark) {
            let k = choose|k: int| 0 <= k < rest.len() && rest[k] == remark;
            assert(all[k] == remark);
            let i = choose|i: int|
                {
                    &&& 0 <= i < front.len()
                    &&& (#[trigger] front[i]).len() > 0
                    &&& text::lossy_text(front[i]) == remark
                };
            assert(pieces[i] == front[i]);
        }
        if all.contains(remark) && !rest.contains(remark) {
            let k = choose|k: int| 0 <= k < all.len() && all[k] == remark;
            if k < rest.len() {
                assert(rest[k] == remark);
            }
        }
        if exists|i: int|
            {
                &&& 0 <= i < pieces.len()
                &&& (#[trigger] pieces[i]).len() > 0
                &&& text::lossy_text(pieces[i]) == remark
            } {
            let i = choose|i: int|
                {
                    &&& 0 <= i < pieces.len()
                    &&& (#[trigger] pieces[i]).len() > 0
                    &&& text::lossy_text(pieces[i]) == remark
                };
            if i < last {
                assert(front[i] == pieces[i]);
            } else {
                assert(all[rest.len() as int] == remark);
            }
        }
    } else {
        assert(piece_texts(pieces) =~= Seq::empty());
    }
}

/// The table ends before the first entry with the tag zero: all before it is kept, nothing behind
/// it is.
pub proof fn lemma_until_null(entries: Seq<(u64, u64)>)
    ensures
        until_null(entries).is_prefix_of(entries),
        forall|i: int| 0 <= i < until_null(entries).len() ==> (#[trigger] entries[i]).0 != 0,
        until_null(entries).len() < entries.len() ==> entries[until_null(entries).len() as int].0
            == 0,
    decreases entries.len(),
{
    let kept = until_null(entries);
    if entries.len() > 0 && entries[0].0 != DT_NULL {
        let rest = entries.drop_first();
        lemma_until_null(rest);
        let more = until_null(rest);
        assert forall|i: int| 0 <= i < kept.len() implies kept[i] == entries[i] by {
            if i > 0 {
                assert(kept[i] == more[i - 1]);
                assert(more[i - 1] == rest.take(more.len() as int)[i - 1]);
            }
        }
        assert(kept =~= entries.take(kept.len() as int));
        assert forall|i: int| 0 <= i < kept.len() implies (#[trigger] entries[i]).0 != 0 by {
            if i > 0 {
                assert(rest[i - 1] == entries[i]);
            }
        }
        if kept.len() < entries.len() {
            assert(rest[more.len() as int] == entries[kept.len() as int]);
        }
    } else {
        assert(kept =~= entries.take(0));
    }
}

/// The entries of a file are the pairs of words in its dynamic section, up to the one that ends the
/// table; the libraries that it needs are the strings, in its string table, that its entries for
/// libraries point to, in the order of the entries.
pub proof fn lemma_dynamic_table(file: image::ImageModel)
    ensures
        file.dynamic is Some && file.dynamic->0.data is Some ==> file_entries(file) == until_null(
            bytes::word_pairs(file.dynamic->0.data->0),
        ),
        file.dynamic is None || file.dynamic->0.data is None ==> file_entries(file) == Seq::<
            (u64, u64),
        >::empty(),
        file.dynstr is Some && file.dynstr->0.data is Some ==> file_libraries(file)
            == file_entries(file).filter(
            |entry: (u64, u64)| entry.0 == 1 && cstr_at(
                file.dynstr->0.data->0,
                entry.1 as usize as int,
            ) is Some,
        ).map_values(
            |entry: (u64, u64)| cstr_at(file.dynstr->0.data->0, entry.1 as usize as int)->0,
        ),
        file.dynstr is None || file.dynstr->0.data is None ==> file_libraries(file) == Seq::<
            Seq<char>,
        >::empty(),
{
    if file.dynstr is Some && file.dynstr->0.data is Some {
        lemma_libraries(file_entries(file), file.dynstr->0.data->0);
    }
}

proof fn lemma_libraries(entries: Seq<(u64, u64)>, strings: Seq<u8>)
    ensures
        libraries(entries, strings) == entries.filter(
            |entry: (u64, u64)| entry.0 == 1 && cstr_at(strings, entry.1 as usize as int) is Some,
        ).map_values(|entry: (u64, u64)| cstr_at(strings, entry.1 as usize as int)->0),
    decreases entries.len(),
{
    let named = |entry: (u64, u64)|
        entry.0 == 1 && cstr_at(strings, entry.1 as usize as int) is Some;
    let name = |entry: (u64, u64)| cstr_at(strings, entry.1 as usize as int)->0;
    reveal(Seq::filter);
    if entries.len() > 0 {
        let front = entries.drop_last();
        lemma_libraries(front, strings);
        if named(entries.last()) {
            assert(entries.filter(named).map_values(name) =~= front.filter(named).map_values(
                name,
            ).push(name(entries.last())));
        }
    } else {
        assert(entries.filter(named).map_values(name) =~= Seq::empty());
    }
}

} // verus!
