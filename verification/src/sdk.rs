//! The mushaf model, the daily Sabqi lessons and the Sabqi -> Manzil plan.

use vstd::prelude::*;
use vstd::seq_lib::lemma_flatten_concat;
use vstd::seq_lib::to_multiset_build;
use vstd::seq_lib::to_multiset_insert;
use crate::json::Json;
use crate::json::JsonV;
use crate::json::elements_view;
use crate::json::lemma_array_view;
use crate::json::lemma_object_view;
use crate::json::members_view;
use crate::json::json_parse;
use crate::json::member;
use crate::json::field_u64;
use crate::json::find_member;
use crate::json::get_field_u64;
use crate::json::parse_json;
use crate::text::decimal;
use crate::text::all_digits;
use crate::text::digits_value;
use crate::text::lemma_decimal_unique;
use crate::text::decimal_chars;
use crate::text::parse_u32;
use crate::text::parse_u32_chars;
use crate::text::to_chars;

pub mod piece1;

verus! {

/// One verse of the mushaf, by chapter (surah) and verse number.
#[derive(Clone, Copy, Debug, PartialEq, Eq, Structural)]
pub struct VerseRef {
    pub chapter: u32,
    pub verse: u32,
}

/// One chapter (surah) with its verses in order.
#[derive(Clone, Debug)]
pub struct Chapter {
    pub number: u32,
    pub verses: Vec<VerseRef>,
}

/// The members of `root` when it is an object, none otherwise.
pub open spec fn root_members(root: JsonV) -> Seq<(Seq<char>, JsonV)> {
    match root {
        JsonV::Object(members) => members,
        _ => Seq::empty(),
    }
}

/// The chapter numbers named by the keys of `members` that parse as `u32`,
/// in the order of the members.
pub open spec fn chapter_keys(members: Seq<(Seq<char>, JsonV)>) -> Seq<u32>
    decreases members.len(),
{
    if members.len() == 0 {
        Seq::empty()
    } else {
        let rest = chapter_keys(members.drop_last());
        match parse_u32(members.last().0) {
            Some(k) => rest.push(k),
            None => rest,
        }
    }
}

/// The entries listed for chapter `num`: the array under the key that writes
/// `num` in decimal, or none when there is no such array.
pub open spec fn chapter_entries(root: JsonV, num: u32) -> Seq<JsonV> {
    match member(root_members(root), decimal(num as nat)) {
        Some(JsonV::Array(items)) => items,
        _ => Seq::empty(),
    }
}

/// Chapter `num`'s entries are the array under the key that writes `num`
/// in digits without sign or leading zero (for example "114" for 114).
pub proof fn lemma_chapter_entries_key(root: JsonV, num: u32, key: Seq<char>)
    requires
        key.len() > 0,
        all_digits(key),
        digits_value(key) == num,
        key[0] != '0' || key.len() == 1,
    ensures
        chapter_entries(root, num) == match member(root_members(root), key) {
            Some(JsonV::Array(items)) => items,
            _ => Seq::empty(),
        },
{
    lemma_decimal_unique(key, num as nat);
}

/// The verse that an entry of chapter `num` stands for: its `chapter` field
/// (else `num`) and its `verse` field (else 0), each cut to 32 bits.
pub open spec fn verse_of_entry(entry: JsonV, num: u32) -> VerseRef {
    VerseRef {
        chapter: (match field_u64(entry, "chapter"@) {
            Some(c) => c,
            None => num as u64,
        }) as u32,
        verse: (match field_u64(entry, "verse"@) {
            Some(v) => v,
            None => 0u64,
        }) as u32,
    }
}

/// An entry stands for the verse its `chapter` and `verse` fields give,
/// cut to 32 bits; without a `chapter` field the entry is in chapter `num`,
/// without a `verse` field it is verse 0.
pub proof fn lemma_verse_of_entry(entry: JsonV, num: u32)
    ensures
        field_u64(entry, "chapter"@) matches Some(c) ==> verse_of_entry(entry, num).chapter == c as u32,
        field_u64(entry, "chapter"@) is None ==> verse_of_entry(entry, num).chapter == num,
        field_u64(entry, "verse"@) matches Some(v) ==> verse_of_entry(entry, num).verse == v as u32,
        field_u64(entry, "verse"@) is None ==> verse_of_entry(entry, num).verse == 0,
{
}

/// Every key that parses as a chapter number gives a chapter number, and
/// every chapter number comes from such a key.
pub proof fn lemma_chapter_keys_from_members(members: Seq<(Seq<char>, JsonV)>)
    ensures
        forall|i: int|
            0 <= i < members.len() && #[trigger] parse_u32(members[i].0) is Some ==> chapter_keys(members).contains(
                parse_u32(members[i].0)->0,
            ),
        forall|k: u32|
            #[trigger] chapter_keys(members).contains(k) ==> exists|i: int|
                0 <= i < members.len() && parse_u32(members[i].0) == Some(k),
    decreases members.len(),
{
    if members.len() > 0 {
        let d = members.drop_last();
        lemma_chapter_keys_from_members(d);
        let rest = chapter_keys(d);
        let last = members.last();
        assert forall|i: int|
            0 <= i < members.len() && #[trigger] parse_u32(members[i].0) is Some implies chapter_keys(members).contains(
                parse_u32(members[i].0)->0,
            ) by {
            if i < members.len() - 1 {
                assert(members[i] == d[i]);
                assert(parse_u32(d[i].0) is Some);
                let k = parse_u32(members[i].0)->0;
                let q = choose|q: int| 0 <= q < rest.len() && rest[q] == k;
                if parse_u32(last.0) is Some {
                    assert(chapter_keys(members)[q] == k);
                }
            } else {
                assert(chapter_keys(members).last() == parse_u32(last.0)->0);
            }
        }
        assert forall|k: u32| #[trigger] chapter_keys(members).contains(k) implies exists|i: int|
            0 <= i < members.len() && parse_u32(members[i].0) == Some(k) by {
            let q = choose|q: int| 0 <= q < chapter_keys(members).len() && chapter_keys(members)[q] == k;
            if q < rest.len() {
                assert(chapter_keys(members)[q] == rest[q]);
                assert(rest.contains(k));
                let i = choose|i: int| 0 <= i < d.len() && parse_u32(d[i].0) == Some(k);
                assert(members[i] == d[i]);
            } else {
                assert(parse_u32(members[members.len() - 1].0) == Some(k));
            }
        }
    }
}

/// The chapters of a reading of the document come in ascending order of
/// number.
pub proof fn lemma_mushaf_ascending(chapters: Seq<Chapter>, root: JsonV)
    requires
        is_mushaf_of(chapters, root),
    ensures
        forall|i: int, j: int| 0 <= i <= j < chapters.len() ==> #[trigger] chapters[i].number <= #[trigger] chapters[j].number,
{
    assert forall|i: int, j: int| 0 <= i <= j < chapters.len() implies #[trigger] chapters[i].number
        <= #[trigger] chapters[j].number by {
        assert(chapter_numbers(chapters)[i] == chapters[i].number);
        assert(chapter_numbers(chapters)[j] == chapters[j].number);
    }
}

/// The verses of chapter `num` in the document `root`.
pub open spec fn chapter_refs(root: JsonV, num: u32) -> Seq<VerseRef> {
    chapter_entries(root, num).map_values(|e: JsonV| verse_of_entry(e, num))
}

/// Whether `s` is in ascending order.
pub open spec fn ascending(s: Seq<u32>) -> bool {
    forall|i: int, j: int| 0 <= i <= j < s.len() ==> s[i] <= s[j]
}

/// The chapter numbers of `chapters`, in order.
pub open spec fn chapter_numbers(chapters: Seq<Chapter>) -> Seq<u32> {
    chapters.map_values(|c: Chapter| c.number)
}

/// `chapters` is the mushaf read from the document `root`: one chapter for
/// each key that parses as a chapter number, in ascending order of number,
/// each with the verses listed for it.
pub open spec fn is_mushaf_of(chapters: Seq<Chapter>, root: JsonV) -> bool {
    &&& chapter_numbers(chapters).to_multiset() == chapter_keys(root_members(root)).to_multiset()
    &&& ascending(chapter_numbers(chapters))
    &&& forall|i: int|
        0 <= i < chapters.len() ==> (#[trigger] chapters[i]).verses@ == chapter_refs(root, chapters[i].number)
}

/// Sort chapter numbers in ascending order.
fn sort_keys(keys: &Vec<u32>) -> (sorted: Vec<u32>)
    ensures
        ascending(sorted@),
        sorted@.to_multiset() == keys@.to_multiset(),
{
    let mut out: Vec<u32> = Vec::new();
    let n: usize = keys.len();
    assert(out@ =~= keys@.take(0));
    for i in 0..n
        invariant
            n == keys@.len(),
            ascending(out@),
            out@.to_multiset() == keys@.take(i as int).to_multiset(),
    {
        let k: u32 = keys[i];
        let mut p: usize = 0;
        while p < out.len() && out[p] <= k
            invariant
                p <= out@.len(),
                forall|q: int| 0 <= q < p ==> out@[q] <= k,
            decreases out@.len() - p,
        {
            p += 1;
        }
        let ghost before = out@;
        out.insert(p, k);
        proof {
            assert forall|a: int, b: int| 0 <= a <= b < out@.len() implies out@[a] <= out@[b] by {
                if a < p && b > p {
                    assert(out@[a] == before[a]);
                    assert(out@[b] == before[b - 1]);
                } else if a < p && b < p {
                    assert(out@[a] == before[a]);
                    assert(out@[b] == before[b]);
                } else if a > p {
                    assert(out@[a] == before[a - 1]);
                    assert(out@[b] == before[b - 1]);
                } else if a < p && b == p {
                    assert(out@[a] == before[a]);
                } else if a == p && b > p {
                    assert(p < before.len());
                    assert(before[p as int] > k);
                    assert(out@[b] == before[b - 1]);
                }
            }
            to_multiset_insert(before, p as int, k);
            assert(keys@.take(i + 1) == keys@.take(i as int).push(k));
            to_multiset_build(keys@.take(i as int), k);
        }
    }
    assert(keys@.take(n as int) == keys@);
    out
}

/// The verses of chapter `num` in the document `root`.
fn chapter_verses_of(root: &Json, num: u32) -> (verses: Vec<VerseRef>)
    ensures
        verses@ == chapter_refs(root@, num),
{
    let mut verses: Vec<VerseRef> = Vec::new();
    let key = decimal_chars(num as u64);
    let chapter_key = to_chars("chapter");
    let verse_key = to_chars("verse");
    let found: Option<&Json> = match root {
        Json::Object(members) => {
            proof {
                lemma_object_view(*members);
            }
            find_member(members, &key)
        },
        _ => None,
    };
    match found {
        Some(Json::Array(items)) => {
            proof {
                lemma_array_view(*items);
            }
            let ghost entries = chapter_entries(root@, num);
            assert(entries == elements_view(items@));
            let m: usize = items.len();
            for t in 0..m
                invariant
                    m == items@.len(),
                    entries == elements_view(items@),
                    chapter_key@ == "chapter"@,
                    verse_key@ == "verse"@,
                    verses@ == entries.take(t as int).map_values(|e: JsonV| verse_of_entry(e, num)),
            {
                let entry = &items[t];
                let chapter: u32 = match get_field_u64(entry, &chapter_key) {
                    Some(c) => c as u32,
                    None => num,
                };
                let verse: u32 = match get_field_u64(entry, &verse_key) {
                    Some(v) => v as u32,
                    None => 0,
                };
                let r = VerseRef { chapter, verse };
                assert(r == verse_of_entry(entry@, num));
                verses.push(r);
                assert(entries.take(t + 1) == entries.take(t as int).push(entries[t as int]));
            }
            assert(entries.take(m as int) == entries);
        },
        _ => {
            assert(chapter_entries(root@, num) =~= Seq::<JsonV>::empty());
            assert(verses@ =~= chapter_refs(root@, num));
        },
    }
    verses
}

/// Read the mushaf out of the parsed document `root`: the keys that parse as
/// chapter numbers, in ascending order, each with the verses listed for it.
pub fn chapters_from_json(root: &Json) -> (chapters: Vec<Chapter>)
    ensures
        is_mushaf_of(chapters@, root@),
{
    let mut keys: Vec<u32> = Vec::new();
    let ghost members = root_members(root@);
    match root {
        Json::Object(entries) => {
            proof {
                lemma_object_view(*entries);
            }
            let n: usize = entries.len();
            for i in 0..n
                invariant
                    n == entries@.len(),
                    members == members_view(entries@),
                    keys@ == chapter_keys(members.take(i as int)),
            {
                let name = to_chars(entries[i].0.as_str());
                assert(members.take(i + 1).drop_last() == members.take(i as int));
                assert(members.take(i + 1).last().0 == entries@[i as int].0@);
                match parse_u32_chars(&name) {
                    Some(k) => keys.push(k),
                    None => {},
                }
            }
            assert(members.take(n as int) == members);
        },
        _ => {
            assert(members.len() == 0);
        },
    }
    let sorted = sort_keys(&keys);
    let mut chapters: Vec<Chapter> = Vec::new();
    let n: usize = sorted.len();
    for i in 0..n
        invariant
            n == sorted@.len(),
            chapters@.len() == i,
            forall|j: int| 0 <= j < i ==> (#[trigger] chapters@[j]).number == sorted@[j],
            forall|j: int|
                0 <= j < i ==> (#[trigger] chapters@[j]).verses@ == chapter_refs(root@, chapters@[j].number),
    {
        let num: u32 = sorted[i];
        let verses = chapter_verses_of(root, num);
        chapters.push(Chapter { number: num, verses });
    }
    assert(chapter_numbers(chapters@) =~= sorted@);
    chapters
}

/// Two ascending sequences with the same elements are the same sequence.
proof fn lemma_ascending_unique(a: Seq<u32>, b: Seq<u32>)
    requires
        ascending(a),
        ascending(b),
        a.to_multiset() == b.to_multiset(),
    ensures
        a == b,
    decreases a.len(),
{
    broadcast use vstd::seq_lib::group_to_multiset_ensures;

    assert(a.len() == a.to_multiset().len());
    assert(b.len() == b.to_multiset().len());
    if a.len() == 0 {
        assert(a =~= b);
    } else {
        assert(a.contains(a[0]));
        assert(a.to_multiset().count(a[0]) > 0);
        assert(b.contains(a[0]));
        assert(b.to_multiset().count(b[0]) > 0);
        assert(a.contains(b[0]));
        assert(a[0] == b[0]);
        let ra = a.remove(0);
        let rb = b.remove(0);
        assert(ra.to_multiset() == a.to_multiset().remove(a[0]));
        assert(rb.to_multiset() == b.to_multiset().remove(b[0]));
        assert(ra == a.drop_first());
        assert(rb == b.drop_first());
        lemma_ascending_unique(ra, rb);
        assert forall|i: int| 0 <= i < a.len() implies a[i] == b[i] by {
            if i > 0 {
                assert(a[i] == ra[i - 1]);
                assert(b[i] == rb[i - 1]);
            }
        }
        assert(a =~= b);
    }
}

/// The mushaf of a document is unique: two readings of the same document
/// have the same chapter numbers, in the same order, with the same verses.
pub proof fn lemma_mushaf_unique(a: Seq<Chapter>, b: Seq<Chapter>, root: JsonV)
    requires
        is_mushaf_of(a, root),
        is_mushaf_of(b, root),
    ensures
        chapter_numbers(a) == chapter_numbers(b),
        chapter_verses(a) == chapter_verses(b),
        all_verses(a) == all_verses(b),
{
    lemma_ascending_unique(chapter_numbers(a), chapter_numbers(b));
    assert(a.len() == chapter_numbers(a).len());
    assert forall|i: int| 0 <= i < a.len() implies chapter_verses(a)[i] == chapter_verses(b)[i] by {
        assert(chapter_numbers(a)[i] == chapter_numbers(b)[i]);
        assert(a[i].verses@ == chapter_refs(root, a[i].number));
        assert(b[i].verses@ == chapter_refs(root, b[i].number));
    }
    assert(chapter_verses(a) =~= chapter_verses(b));
}

/// Parse the mushaf document `raw` (shape: `{ "1": [ {chapter, verse, text},
/// ... ], ... }`) into ordered chapters. The text must be valid JSON.
pub fn parse_quran(raw: &str) -> (chapters: Vec<Chapter>)
    requires
        json_parse(raw@) is Some,
    ensures
        is_mushaf_of(chapters@, json_parse(raw@)->0),
{
    let root = parse_json(raw);
    match root {
        Some(doc) => chapters_from_json(&doc),
        None => Vec::new(),
    }
}

/// Parse the mushaf document `raw` into ordered chapters; `None` when `raw`
/// is not valid JSON.
pub fn try_parse_quran(raw: &str) -> (res: Option<Vec<Chapter>>)
    ensures
        match json_parse(raw@) {
            Some(root) => res matches Some(chapters) && is_mushaf_of(chapters@, root),
            None => res is None,
        },
{
    match parse_json(raw) {
        Some(_) => Some(parse_quran(raw)),
        None => None,
    }
}

/// The verses of each chapter, chapter by chapter.
pub open spec fn chapter_verses(chapters: Seq<Chapter>) -> Seq<Seq<VerseRef>> {
    chapters.map_values(|c: Chapter| c.verses@)
}

/// The whole mushaf as one ordered verse list.
pub open spec fn all_verses(chapters: Seq<Chapter>) -> Seq<VerseRef> {
    chapter_verses(chapters).flatten()
}

/// The number of verses of all the chapters together.
pub open spec fn verses_total(chapters: Seq<Chapter>) -> int
    decreases chapters.len(),
{
    if chapters.len() == 0 {
        0
    } else {
        verses_total(chapters.drop_last()) + chapters.last().verses@.len()
    }
}

/// The whole mushaf holds every verse of every chapter: as many verses as
/// the chapters together, and each chapter's verses in full and in order,
/// right after those of the chapters before it.
pub proof fn lemma_all_verses_complete(chapters: Seq<Chapter>)
    ensures
        all_verses(chapters).len() == verses_total(chapters),
        forall|i: int, j: int|
            0 <= i < chapters.len() && 0 <= j < chapters[i].verses@.len() ==> all_verses(chapters)[verses_total(
                chapters.take(i),
            ) + j] == #[trigger] chapters[i].verses@[j],
    decreases chapters.len(),
{
    if chapters.len() == 0 {
        assert(chapter_verses(chapters) =~= Seq::<Seq<VerseRef>>::empty());
    } else {
        let d = chapters.drop_last();
        let last = chapters.last();
        lemma_all_verses_complete(d);
        assert(chapter_verses(chapters) =~= chapter_verses(d).push(last.verses@));
        chapter_verses(d).lemma_flatten_push(last.verses@);
        assert(all_verses(chapters) == all_verses(d) + last.verses@);
        assert forall|i: int, j: int|
            0 <= i < chapters.len() && 0 <= j < chapters[i].verses@.len() implies all_verses(chapters)[verses_total(
                chapters.take(i),
            ) + j] == #[trigger] chapters[i].verses@[j] by {
            if i < chapters.len() - 1 {
                lemma_all_verses_complete(d.take(i));
                assert(chapters.take(i) == d.take(i));
                assert(chapters[i] == d[i]);
                assert(d[i].verses@[j] == chapters[i].verses@[j]);
                lemma_verses_total_take(d, i);
                assert(verses_total(d.take(i)) + j < verses_total(d)) by {
                    lemma_verses_total_take_le(d, i);
                }
                assert(all_verses(d)[verses_total(d.take(i)) + j] == d[i].verses@[j]);
                assert((all_verses(d) + last.verses@)[verses_total(d.take(i)) + j] == all_verses(d)[verses_total(
                    d.take(i),
                ) + j]);
            } else {
                assert(chapters.take(i) =~= d);
                assert(chapters[i] == last);
                assert((all_verses(d) + last.verses@)[all_verses(d).len() + j] == last.verses@[j]);
            }
        }
    }
}

proof fn lemma_verses_total_take(chapters: Seq<Chapter>, i: int)
    requires
        0 <= i < chapters.len(),
    ensures
        verses_total(chapters.take(i + 1)) == verses_total(chapters.take(i)) + chapters[i].verses@.len(),
{
    assert(chapters.take(i + 1).drop_last() =~= chapters.take(i));
}

proof fn lemma_verses_total_take_le(chapters: Seq<Chapter>, i: int)
    requires
        0 <= i < chapters.len(),
    ensures
        verses_total(chapters.take(i)) + chapters[i].verses@.len() <= verses_total(chapters),
    decreases chapters.len(),
{
    lemma_verses_total_take(chapters, i);
    if i + 1 < chapters.len() {
        lemma_verses_total_take_le(chapters.drop_last(), i);
        assert(chapters.drop_last().take(i) =~= chapters.take(i));
        assert(chapters.drop_last()[i] == chapters[i]);
    } else {
        assert(chapters.take(i + 1) =~= chapters);
    }
}

/// Flatten the whole mushaf into one ordered verse list.
pub fn flatten(chapters: &[Chapter]) -> (res: Vec<VerseRef>)
    ensures
        res@ == all_verses(chapters@),
{
    let mut out: Vec<VerseRef> = Vec::new();
    let n: usize = chapters.len();
    for i in 0..n
        invariant
            n == chapters@.len(),
            out@ == chapter_verses(chapters@.take(i as int)).flatten(),
    {
        let verses = &chapters[i].verses;
        let ghost before = out@;
        let m: usize = verses.len();
        for j in 0..m
            invariant
                m == verses@.len(),
                verses == chapters@[i as int].verses,
                out@ == before + verses@.take(j as int),
        {
            out.push(verses[j]);
            assert(verses@.take(j + 1) == verses@.take(j as int).push(verses@[j as int]));
        }
        proof {
            assert(verses@.take(m as int) == verses@);
            assert(chapter_verses(chapters@.take(i + 1)) == chapter_verses(chapters@.take(
                i as int,
            )).push(verses@));
            chapter_verses(chapters@.take(i as int)).lemma_flatten_push(verses@);
        }
    }
    assert(chapters@.take(n as int) == chapters@);
    out
}


/// All the verses of `lesson` belong to one chapter.
pub open spec fn within_one_surah(lesson: Seq<VerseRef>) -> bool {
    forall|a: int| 0 <= a < lesson.len() ==> #[trigger] lesson[a].chapter == lesson[0].chapter
}

/// The length of the surah run at the front of `s`: how many verses at its
/// front belong to the chapter of its first verse.
pub open spec fn surah_run(s: Seq<VerseRef>) -> nat
    decreases s.len(),
{
    if s.len() <= 1 {
        s.len()
    } else if s[1].chapter == s[0].chapter {
        1 + surah_run(s.drop_first())
    } else {
        1
    }
}

/// The run at the front of `s` is not empty (when `s` is not), lies within
/// `s`, keeps one chapter, and is followed by another chapter.
pub proof fn lemma_surah_run_facts(s: Seq<VerseRef>)
    ensures
        s.len() > 0 ==> 1 <= surah_run(s),
        surah_run(s) <= s.len(),
        forall|a: int| 0 <= a < surah_run(s) ==> #[trigger] s[a].chapter == s[0].chapter,
        surah_run(s) < s.len() ==> s[surah_run(s) as int].chapter != s[0].chapter,
    decreases s.len(),
{
    if s.len() > 1 && s[1].chapter == s[0].chapter {
        let t = s.drop_first();
        lemma_surah_run_facts(t);
        assert forall|a: int| 0 <= a < surah_run(s) implies #[trigger] s[a].chapter == s[0].chapter by {
            if a > 0 {
                assert(s[a] == t[a - 1]);
            }
        }
        if surah_run(s) < s.len() {
            assert(s[surah_run(s) as int] == t[surah_run(t) as int]);
        }
    }
}

/// The length of the lesson that starts `s`: up to `n` verses, stopping at
/// the end of the surah.
pub open spec fn first_lesson_len(s: Seq<VerseRef>, n: nat) -> nat {
    if surah_run(s) < n {
        surah_run(s)
    } else {
        n
    }
}

/// The daily lessons of `s` with `n` verses a day: each surah is cut into
/// runs of `n` verses, its last run holding what is left of it, so that no
/// lesson spans two surahs.
pub open spec fn daily_lessons(s: Seq<VerseRef>, n: nat) -> Seq<Seq<VerseRef>>
    decreases s.len(),
{
    if n == 0 || s.len() == 0 {
        Seq::empty()
    } else {
        proof {
            lemma_surah_run_facts(s);
        }
        let k = first_lesson_len(s, n);
        seq![s.take(k as int)] + daily_lessons(s.skip(k as int), n)
    }
}

/// `days` cuts `s` into lessons of at most `n` verses: read in order they
/// give back `s`, none is empty, each lies within one surah, and a lesson is
/// cut short of `n` verses only where the next lesson starts another surah.
pub open spec fn is_chunking(days: Seq<Seq<VerseRef>>, s: Seq<VerseRef>, n: nat) -> bool {
    &&& days.flatten() == s
    &&& forall|d: int| 0 <= d < days.len() ==> 0 < #[trigger] days[d].len() <= n
    &&& forall|d: int| 0 <= d < days.len() ==> within_one_surah(#[trigger] days[d])
    &&& forall|d: int|
        0 <= d < days.len() - 1 ==> #[trigger] days[d].len() == n || days[d].last().chapter
            != days[d + 1][0].chapter
}

/// The contents of each vector, in order.
pub open spec fn vec_views(v: Seq<Vec<VerseRef>>) -> Seq<Seq<VerseRef>> {
    v.map_values(|x: Vec<VerseRef>| x@)
}

/// The first verse of a flattened list is the first verse of its first part.
proof fn lemma_flatten_first(days: Seq<Seq<VerseRef>>)
    requires
        days.len() > 0,
        days[0].len() > 0,
    ensures
        days.flatten().len() > 0,
        days.flatten()[0] == days[0][0],
{
    assert(days.flatten() == days[0] + days.drop_first().flatten());
}

/// A chunking as `is_chunking` describes is unique: it is `daily_lessons`.
pub proof fn lemma_chunking_is_daily_lessons(days: Seq<Seq<VerseRef>>, s: Seq<VerseRef>, n: nat)
    requires
        n > 0,
        is_chunking(days, s, n),
    ensures
        days == daily_lessons(s, n),
    decreases days.len(),
{
    if days.len() == 0 {
        assert(s.len() == 0);
        assert(days =~= daily_lessons(s, n));
    } else {
        let rest = days.drop_first();
        let l0 = days[0].len() as int;
        assert(days.flatten() == days[0] + rest.flatten());
        assert(s.take(l0) =~= days[0]);
        assert(s.skip(l0) =~= rest.flatten());
        lemma_surah_run_facts(s);
        assert(within_one_surah(days[0]));
        assert forall|a: int| 0 <= a < l0 implies #[trigger] s[a].chapter == s[0].chapter by {
            assert(s[a] == days[0][a]);
            assert(s[0] == days[0][0]);
        }
        if surah_run(s) < l0 {
            assert(s[surah_run(s) as int].chapter == s[0].chapter);
        }
        if days.len() == 1 {
            assert(rest.flatten() =~= Seq::<VerseRef>::empty());
            assert(s =~= days[0]);
            assert(surah_run(s) == l0);
        } else if l0 < n {
            assert(days[0].last().chapter != days[1][0].chapter);
            assert(rest[0] == days[1]);
            assert(rest[0].len() > 0);
            lemma_flatten_first(rest);
            assert(s[l0] == days[1][0]);
            assert(days[0].last() == s[l0 - 1]);
            assert(surah_run(s) == l0);
        }
        assert(first_lesson_len(s, n) == l0);
        assert forall|d: int| 0 <= d < rest.len() implies 0 < #[trigger] rest[d].len() <= n by {
            assert(rest[d] == days[d + 1]);
        }
        assert forall|d: int| 0 <= d < rest.len() implies within_one_surah(#[trigger] rest[d]) by {
            assert(rest[d] == days[d + 1]);
        }
        assert forall|d: int|
            0 <= d < rest.len() - 1 implies #[trigger] rest[d].len() == n || rest[d].last().chapter
                != rest[d + 1][0].chapter by {
            assert(rest[d] == days[d + 1]);
            assert(rest[d + 1] == days[d + 2]);
        }
        lemma_chunking_is_daily_lessons(rest, s.skip(l0), n);
        assert(days =~= seq![s.take(l0)] + rest);
    }
}

/// The daily lessons cut the verse list in order: read one after the other
/// they give back every verse exactly once, no lesson is empty or longer than
/// a day's quota, no lesson spans two surahs, and a lesson is cut short of
/// the quota only where the next one starts another surah.
pub proof fn lemma_daily_lessons_cover_in_order(s: Seq<VerseRef>, n: nat)
    requires
        n > 0,
    ensures
        is_chunking(daily_lessons(s, n), s, n),
    decreases s.len(),
{
    let days = daily_lessons(s, n);
    if s.len() == 0 {
        assert(days =~= Seq::<Seq<VerseRef>>::empty());
        assert(days.flatten() =~= s);
    } else {
        lemma_surah_run_facts(s);
        let k = first_lesson_len(s, n) as int;
        let first = s.take(k);
        let tail = s.skip(k);
        let rest = daily_lessons(tail, n);
        lemma_daily_lessons_cover_in_order(tail, n);
        assert(days == seq![first] + rest);
        lemma_flatten_concat(seq![first], rest);
        seq![first].lemma_flatten_singleton();
        assert(first + tail =~= s);
        assert(days.flatten() == s);
        assert(within_one_surah(first)) by {
            assert forall|a: int| 0 <= a < first.len() implies #[trigger] first[a].chapter == first[0].chapter by {
                assert(first[a] == s[a]);
            }
        }
        assert forall|d: int| 0 <= d < days.len() implies 0 < #[trigger] days[d].len() <= n by {
            if d > 0 {
                assert(days[d] == rest[d - 1]);
            }
        }
        assert forall|d: int| 0 <= d < days.len() implies within_one_surah(#[trigger] days[d]) by {
            if d > 0 {
                assert(days[d] == rest[d - 1]);
            }
        }
        assert forall|d: int|
            0 <= d < days.len() - 1 implies #[trigger] days[d].len() == n || days[d].last().chapter
                != days[d + 1][0].chapter by {
            if d > 0 {
                assert(days[d] == rest[d - 1]);
                assert(days[d + 1] == rest[d]);
            } else if k < n {
                assert(days[1] == rest[0]);
                assert(rest[0].len() > 0);
                lemma_flatten_first(rest);
                assert(rest[0][0] == tail[0]);
                assert(tail[0] == s[k]);
                assert(first.last() == s[k - 1]);
                assert(s[k - 1].chapter == s[0].chapter);
            }
        }
    }
}

/// Past the first `n` verses of a surah run of length `r > n`, the run goes
/// on for `r - n` verses.
proof fn lemma_surah_run_skip(s: Seq<VerseRef>, n: nat)
    requires
        0 < n < surah_run(s),
    ensures
        surah_run(s.skip(n as int)) == surah_run(s) - n,
{
    let r = surah_run(s) as int;
    let t = s.skip(n as int);
    lemma_surah_run_facts(s);
    lemma_surah_run_facts(t);
    let q = surah_run(t) as int;
    assert(t[0] == s[n as int]);
    if q < r - n {
        assert(t[q] == s[n + q]);
        assert(s[n + q].chapter == s[0].chapter);
    }
    if q > r - n {
        assert(t[r - n] == s[r]);
        assert(t[r - n].chapter == t[0].chapter);
    }
}

/// The number of daily lessons of `s`: those of its first surah (its length
/// divided by the quota, rounded up) and those of the rest.
pub proof fn lemma_daily_lessons_count(s: Seq<VerseRef>, n: nat)
    requires
        n > 0,
        s.len() > 0,
    ensures
        daily_lessons(s, n).len() == (surah_run(s) + n - 1) / (n as int) + daily_lessons(
            s.skip(surah_run(s) as int),
            n,
        ).len(),
    decreases s.len(),
{
    lemma_surah_run_facts(s);
    let r = surah_run(s) as int;
    let m = n as int;
    if r <= m {
        assert((r + m - 1) / m == 1) by (nonlinear_arith)
            requires
                0 < r <= m,
        ;
    } else {
        let t = s.skip(n as int);
        lemma_surah_run_skip(s, n);
        lemma_daily_lessons_count(t, n);
        assert(t.skip(r - m) =~= s.skip(r));
        assert((r + m - 1) / m == 1 + (r - m + m - 1) / m) by (nonlinear_arith)
            requires
                r > m > 0,
        ;
    }
}

/// A larger daily quota never gives more days.
pub proof fn lemma_larger_quota_fewer_days(s: Seq<VerseRef>, a: nat, b: nat)
    requires
        1 <= a <= b,
    ensures
        daily_lessons(s, b).len() <= daily_lessons(s, a).len(),
    decreases s.len(),
{
    if s.len() > 0 {
        lemma_surah_run_facts(s);
        let r = surah_run(s) as int;
        lemma_daily_lessons_count(s, a);
        lemma_daily_lessons_count(s, b);
        lemma_larger_quota_fewer_days(s.skip(r), a, b);
        let ia = a as int;
        let ib = b as int;
        let qb = (r + ib - 1) / ib;
        assert(qb >= 1) by (nonlinear_arith)
            requires
                qb == (r + ib - 1) / ib,
                ib > 0,
                r > 0,
        ;
        assert(qb * ib <= r + ib - 1) by (nonlinear_arith)
            requires
                qb == (r + ib - 1) / ib,
                ib > 0,
                r > 0,
        ;
        assert((qb - 1) * ia <= (qb - 1) * ib) by (nonlinear_arith)
            requires
                qb >= 1,
                ia <= ib,
        ;
        assert(qb <= (r + ia - 1) / ia) by (nonlinear_arith)
            requires
                (qb - 1) * ia <= (qb - 1) * ib,
                qb * ib <= r + ib - 1,
                ia > 0,
                qb >= 1,
        ;
    }
}

/// A lesson's verses, read from the verse list, lie in the surah being read.
proof fn lemma_current_in_surah(
    done: Seq<VerseRef>,
    cur: Seq<VerseRef>,
    s: Seq<VerseRef>,
    i: int,
    k: int,
    j: int,
    chapter: u32,
)
    requires
        done + cur == s.take(k),
        cur.len() <= k - i,
        0 <= i <= k <= j <= s.len(),
        forall|a: int| i <= a < j ==> #[trigger] s[a].chapter == chapter,
    ensures
        forall|a: int| 0 <= a < cur.len() ==> #[trigger] cur[a].chapter == chapter,
{
    assert((done + cur).len() == k);
    assert forall|a: int| 0 <= a < cur.len() implies #[trigger] cur[a].chapter == chapter by {
        assert(i <= done.len() + a < j);
        assert((done + cur)[done.len() + a] == cur[a]);
        assert(s.take(k)[done.len() + a] == s[done.len() + a]);
    }
}

/// Split the mushaf into daily "sabqi" lessons of `verses_per_day` verses,
/// never breaking a surah across a daily lesson: each surah is cut into runs
/// of `verses_per_day` verses, its last run holding what is left of it.
pub fn chunk_daily(verses: &[VerseRef], verses_per_day: usize) -> (days: Vec<Vec<VerseRef>>)
    requires
        verses_per_day > 0 || verses@.len() == 0,
    ensures
        vec_views(days@) == daily_lessons(verses@, verses_per_day as nat),
{
    let mut days: Vec<Vec<VerseRef>> = Vec::new();
    let len: usize = verses.len();
    let mut i: usize = 0;
    while i < len
        invariant
            len == verses@.len(),
            i <= len,
            len > 0 ==> verses_per_day > 0,
            verses_per_day == 0 ==> days@.len() == 0,
            vec_views(days@).flatten() == verses@.take(i as int),
            forall|d: int| 0 <= d < days@.len() ==> 0 < (#[trigger] days@[d])@.len() <= verses_per_day,
            forall|d: int| 0 <= d < days@.len() ==> within_one_surah((#[trigger] days@[d])@),
            forall|d: int|
                0 <= d < days@.len() - 1 ==> (#[trigger] days@[d])@.len() == verses_per_day
                    || days@[d]@.last().chapter != days@[d + 1]@[0].chapter,
            days@.len() > 0 && i < len ==> days@.last()@.len() == verses_per_day
                || days@.last()@.last().chapter != verses@[i as int].chapter,
        decreases len - i,
    {
        let chapter: u32 = verses[i].chapter;
        let mut j: usize = i;
        while j < len && verses[j].chapter == chapter
            invariant
                i <= j <= len,
                i < len,
                len == verses@.len(),
                verses@[i as int].chapter == chapter,
                forall|a: int| i <= a < j ==> #[trigger] verses@[a].chapter == chapter,
            decreases len - j,
        {
            j += 1;
        }
        let mut current: Vec<VerseRef> = Vec::new();
        assert(vec_views(days@).flatten() + current@ =~= verses@.take(i as int));
        let mut k: usize = i;
        while k < j
            invariant
                len == verses@.len(),
                i < j <= len,
                i <= k <= j,
                verses_per_day > 0,
                forall|a: int| i <= a < j ==> #[trigger] verses@[a].chapter == chapter,
                j < len ==> verses@[j as int].chapter != chapter,
                current@.len() < verses_per_day,
                current@.len() <= k - i,
                vec_views(days@).flatten() + current@ == verses@.take(k as int),
                forall|d: int| 0 <= d < days@.len() ==> 0 < (#[trigger] days@[d])@.len() <= verses_per_day,
                forall|d: int| 0 <= d < days@.len() ==> within_one_surah((#[trigger] days@[d])@),
                forall|d: int|
                    0 <= d < days@.len() - 1 ==> (#[trigger] days@[d])@.len() == verses_per_day
                        || days@[d]@.last().chapter != days@[d + 1]@[0].chapter,
                days@.len() > 0 ==> days@.last()@.len() == verses_per_day
                    || days@.last()@.last().chapter != chapter,
                k > i && current@.len() == 0 ==> days@.len() > 0 && days@.last()@.len() == verses_per_day,
            decreases j - k,
        {
            let room: usize = verses_per_day - current.len();
            let left: usize = j - k;
            let take: usize = if room < left { room } else { left };
            let ghost before = current@;
            for t in 0..take
                invariant
                    len == verses@.len(),
                    k + take <= len,
                    current@ == before + verses@.subrange(k as int, k + t),
            {
                current.push(verses[k + t]);
                assert(verses@.subrange(k as int, k + t + 1) == verses@.subrange(k as int, k + t).push(
                    verses@[k + t],
                ));
            }
            proof {
                assert(verses@.take(k + take) == verses@.take(k as int) + verses@.subrange(
                    k as int,
                    k + take,
                ));
                assert(vec_views(days@).flatten() + current@ =~= verses@.take(k + take));
            }
            k = k + take;
            if current.len() == verses_per_day {
                let ghost vdays = vec_views(days@);
                let ghost old_days = days@;
                proof {
                    lemma_current_in_surah(vdays.flatten(), current@, verses@, i as int, k as int, j as int, chapter);
                }
                let full = current;
                current = Vec::new();
                days.push(full);
                proof {
                    assert(vec_views(days@) == vdays.push(full@));
                    vdays.lemma_flatten_push(full@);
                    assert(current@ =~= Seq::<VerseRef>::empty());
                    assert forall|d: int| 0 <= d < days@.len() implies 0 < (#[trigger] days@[d])@.len() <= verses_per_day by {
                        if d < old_days.len() {
                            assert(days@[d] == old_days[d]);
                        }
                    }
                    assert forall|d: int| 0 <= d < days@.len() implies within_one_surah((#[trigger] days@[d])@) by {
                        if d < old_days.len() {
                            assert(days@[d] == old_days[d]);
                        }
                    }
                    assert forall|d: int|
                        0 <= d < days@.len() - 1 implies (#[trigger] days@[d])@.len() == verses_per_day
                            || days@[d]@.last().chapter != days@[d + 1]@[0].chapter by {
                        assert(days@[d] == old_days[d]);
                        if d + 1 < old_days.len() {
                            assert(days@[d + 1] == old_days[d + 1]);
                        }
                    }
                }
            }
        }
        let ghost cur = current@;
        let ghost vdays = vec_views(days@);
        let ghost old_days = days@;
        proof {
            lemma_current_in_surah(vdays.flatten(), cur, verses@, i as int, k as int, j as int, chapter);
        }
        if current.len() > 0 {
            days.push(current);
            proof {
                assert(vec_views(days@) == vdays.push(cur));
                vdays.lemma_flatten_push(cur);
                assert forall|d: int| 0 <= d < days@.len() implies 0 < (#[trigger] days@[d])@.len() <= verses_per_day by {
                    if d < old_days.len() {
                        assert(days@[d] == old_days[d]);
                    }
                }
                assert forall|d: int| 0 <= d < days@.len() implies within_one_surah((#[trigger] days@[d])@) by {
                    if d < old_days.len() {
                        assert(days@[d] == old_days[d]);
                    } else {
                        assert(days@[d]@ == cur);
                    }
                }
                assert forall|d: int|
                    0 <= d < days@.len() - 1 implies (#[trigger] days@[d])@.len() == verses_per_day
                        || days@[d]@.last().chapter != days@[d + 1]@[0].chapter by {
                    assert(days@[d] == old_days[d]);
                    if d + 1 < old_days.len() {
                        assert(days@[d + 1] == old_days[d + 1]);
                    } else {
                        assert(days@[d + 1]@ == cur);
                    }
                }
                if j < len {
                    assert(days@.last()@ == cur);
                    assert(cur.last().chapter == chapter);
                }
            }
        } else {
            assert(cur =~= Seq::<VerseRef>::empty());
            assert(vdays.flatten() + cur =~= vdays.flatten());
        }
        i = j;
    }
    assert(verses@.take(len as int) == verses@);
    proof {
        let vd = vec_views(days@);
        assert forall|d: int| 0 <= d < vd.len() implies 0 < #[trigger] vd[d].len() <= verses_per_day by {
            assert(vd[d] == days@[d]@);
        }
        assert forall|d: int| 0 <= d < vd.len() implies within_one_surah(#[trigger] vd[d]) by {
            assert(vd[d] == days@[d]@);
        }
        assert forall|d: int|
            0 <= d < vd.len() - 1 implies #[trigger] vd[d].len() == verses_per_day || vd[d].last().chapter
                != vd[d + 1][0].chapter by {
            assert(vd[d] == days@[d]@);
            assert(vd[d + 1] == days@[d + 1]@);
        }
        if len > 0 {
            lemma_chunking_is_daily_lessons(vd, verses@, verses_per_day as nat);
        } else {
            assert(vd.flatten() == verses@);
            assert(verses@.len() == 0);
        }
    }
    days
}

/// Verses in one daily Sabqi lesson.
pub const VERSES_PER_DAY: usize = 10;

/// Number of previous lessons revised as Sabqi review.
pub const SABQI_WINDOW: usize = 5;

/// Number of lessons in the Manzil review before the Sabqi window.
pub const MANZIL_DAYS: usize = 15;

/// One day of the plan.
#[derive(Clone, Debug)]
pub struct PlanStep {
    /// The day number, from 1.
    pub day: u64,
    /// Today's new lesson.
    pub sabqi_new: Vec<VerseRef>,
    /// The previous `SABQI_WINDOW` lessons, oldest first.
    pub sabqi_review: Vec<VerseRef>,
    /// The up to `MANZIL_DAYS` lessons before the Sabqi window, oldest first.
    pub manzil_review: Vec<VerseRef>,
}

/// The Sabqi -> Manzil plan.
#[derive(Clone, Debug)]
pub struct HifzPlan {
    pub method: String,
    pub description: String,
    pub verses_per_day: u64,
    pub sabqi_review_days: u64,
    pub manzil_review_days: u64,
    pub total_days: u64,
    pub steps: Vec<PlanStep>,
}

/// The first lesson of the Sabqi review window of day index `idx`.
pub open spec fn sabqi_start(idx: int) -> int {
    if idx >= SABQI_WINDOW {
        idx - SABQI_WINDOW
    } else {
        0
    }
}

/// The first lesson of the Manzil review window of day index `idx`.
pub open spec fn manzil_start(idx: int) -> int {
    if idx >= SABQI_WINDOW + MANZIL_DAYS {
        idx - (SABQI_WINDOW + MANZIL_DAYS)
    } else {
        0
    }
}

/// The lessons `lo .. hi` of `days`, read one after the other.
pub open spec fn lessons_between(days: Seq<Seq<VerseRef>>, lo: int, hi: int) -> Seq<VerseRef> {
    days.subrange(lo, hi).flatten()
}

/// `step` is the plan's day of index `idx` over the lessons `days`.
pub open spec fn is_plan_step(step: PlanStep, days: Seq<Seq<VerseRef>>, idx: int) -> bool {
    &&& step.day == idx + 1
    &&& step.sabqi_new@ == days[idx]
    &&& step.sabqi_review@ == lessons_between(days, sabqi_start(idx), idx)
    &&& step.manzil_review@ == lessons_between(days, manzil_start(idx), sabqi_start(idx))
}

/// The text that names the method.
pub open spec fn plan_method() -> Seq<char> {
    "Sabqi -> Manzil"@
}

/// The text that describes the method.
pub open spec fn plan_description() -> Seq<char> {
    "Daily hifz routine: memorize a new Sabqi every day, revise the last few lessons as Sabqi, and keep a rolling Manzil review of the previous fortnight."@
}

/// `plan` is the Sabqi -> Manzil plan over the lessons `days`.
pub open spec fn is_plan_for(plan: HifzPlan, days: Seq<Seq<VerseRef>>) -> bool {
    &&& plan.method@ == plan_method()
    &&& plan.description@ == plan_description()
    &&& plan.verses_per_day == 10
    &&& plan.sabqi_review_days == SABQI_WINDOW
    &&& plan.manzil_review_days == MANZIL_DAYS
    &&& plan.total_days == days.len()
    &&& plan.steps@.len() == days.len()
    &&& forall|idx: int| 0 <= idx < days.len() ==> is_plan_step(#[trigger] plan.steps@[idx], days, idx)
}

/// Append the verses of `lesson` to `out`.
fn append_lesson(out: &mut Vec<VerseRef>, lesson: &Vec<VerseRef>)
    ensures
        final(out)@ == old(out)@ + lesson@,
{
    let ghost start = out@;
    let m: usize = lesson.len();
    for t in 0..m
        invariant
            m == lesson@.len(),
            out@ == start + lesson@.take(t as int),
    {
        out.push(lesson[t]);
        assert(lesson@.take(t + 1) == lesson@.take(t as int).push(lesson@[t as int]));
    }
    assert(lesson@.take(m as int) == lesson@);
}

/// The lessons `lo .. hi` of `daily`, one after the other.
fn collect_lessons(daily: &[Vec<VerseRef>], lo: usize, hi: usize) -> (out: Vec<VerseRef>)
    requires
        lo <= hi <= daily@.len(),
    ensures
        out@ == lessons_between(vec_views(daily@), lo as int, hi as int),
{
    let mut out: Vec<VerseRef> = Vec::new();
    let ghost days = vec_views(daily@);
    for k in lo..hi
        invariant
            hi <= daily@.len(),
            days == vec_views(daily@),
            out@ == lessons_between(days, lo as int, k as int),
    {
        append_lesson(&mut out, &daily[k]);
        proof {
            assert(days.subrange(lo as int, k + 1) == days.subrange(lo as int, k as int).push(days[k as int]));
            days.subrange(lo as int, k as int).lemma_flatten_push(days[k as int]);
        }
    }
    out
}

/// Build the Sabqi -> Manzil plan from the daily lessons: each day gets its
/// new lesson, the previous `SABQI_WINDOW` lessons as Sabqi review, and the
/// `MANZIL_DAYS` lessons before those as Manzil review.
pub fn build_plan_from_days(daily: &[Vec<VerseRef>]) -> (plan: HifzPlan)
    ensures
        is_plan_for(plan, vec_views(daily@)),
{
    let ghost days = vec_views(daily@);
    let n: usize = daily.len();
    let mut steps: Vec<PlanStep> = Vec::new();
    for idx in 0..n
        invariant
            n == daily@.len(),
            days == vec_views(daily@),
            steps@.len() == idx,
            forall|i: int| 0 <= i < idx ==> is_plan_step(#[trigger] steps@[i], days, i),
    {
        let day: u64 = (idx + 1) as u64;
        let mut sabqi_new: Vec<VerseRef> = Vec::new();
        append_lesson(&mut sabqi_new, &daily[idx]);
        let sabqi_start: usize = if idx >= SABQI_WINDOW {
            idx - SABQI_WINDOW
        } else {
            0
        };
        let manzil_start: usize = if idx >= SABQI_WINDOW + MANZIL_DAYS {
            idx - (SABQI_WINDOW + MANZIL_DAYS)
        } else {
            0
        };
        let manzil_review = collect_lessons(daily, manzil_start, sabqi_start);
        let sabqi_review = collect_lessons(daily, sabqi_start, idx);
        let step = PlanStep { day, sabqi_new, sabqi_review, manzil_review };
        assert(is_plan_step(step, days, idx as int));
        steps.push(step);
    }
    let total_days: u64 = steps.len() as u64;
    HifzPlan {
        method: String::from_str("Sabqi -> Manzil"),
        description: String::from_str(
            "Daily hifz routine: memorize a new Sabqi every day, revise the last few lessons as Sabqi, and keep a rolling Manzil review of the previous fortnight.",
        ),
        verses_per_day: 10,
        sabqi_review_days: SABQI_WINDOW as u64,
        manzil_review_days: MANZIL_DAYS as u64,
        total_days,
        steps,
    }
}

/// Build the Sabqi -> Manzil plan from the whole mushaf, with lessons of
/// `VERSES_PER_DAY` verses.
pub fn build_plan(chapters: &[Chapter]) -> (plan: HifzPlan)
    ensures
        is_plan_for(plan, daily_lessons(all_verses(chapters@), VERSES_PER_DAY as nat)),
{
    let verses = flatten(chapters);
    let daily = chunk_daily(&verses, VERSES_PER_DAY);
    build_plan_from_days(&daily)
}


/// The new lessons of the plan, day by day.
pub open spec fn new_lessons(plan: HifzPlan) -> Seq<Seq<VerseRef>> {
    plan.steps@.map_values(|step: PlanStep| step.sabqi_new@)
}

/// On every day the Manzil review, the Sabqi review and the new lesson are
/// consecutive lessons, read in that order without gap or overlap; the Sabqi
/// review spans the previous `SABQI_WINDOW` lessons (fewer at the start) and
/// the Manzil review the `MANZIL_DAYS` lessons before those (fewer at the
/// start).
pub proof fn lemma_plan_windows_are_contiguous(plan: HifzPlan, days: Seq<Seq<VerseRef>>, idx: int)
    requires
        is_plan_for(plan, days),
        0 <= idx < days.len(),
    ensures
        plan.steps@[idx].manzil_review@ + plan.steps@[idx].sabqi_review@ + plan.steps@[idx].sabqi_new@
            == lessons_between(days, manzil_start(idx), idx + 1),
        idx - sabqi_start(idx) == (if idx < SABQI_WINDOW { idx } else { SABQI_WINDOW as int }),
        sabqi_start(idx) - manzil_start(idx) == (if idx < SABQI_WINDOW {
            0
        } else if idx < SABQI_WINDOW + MANZIL_DAYS {
            idx - SABQI_WINDOW
        } else {
            MANZIL_DAYS as int
        }),
{
    let step = plan.steps@[idx];
    assert(is_plan_step(step, days, idx));
    let lo = manzil_start(idx);
    let mid = sabqi_start(idx);
    assert(days.subrange(lo, idx + 1) =~= days.subrange(lo, mid) + days.subrange(mid, idx) + seq![days[idx]]);
    lemma_flatten_concat(days.subrange(lo, mid) + days.subrange(mid, idx), seq![days[idx]]);
    lemma_flatten_concat(days.subrange(lo, mid), days.subrange(mid, idx));
    seq![days[idx]].lemma_flatten_singleton();
}

/// Over the whole mushaf, the new lessons of the plan, read day after day,
/// give back every verse exactly once and in order: they are the daily
/// lessons, so no new lesson spans two surahs, each holds between 1 and
/// `VERSES_PER_DAY` verses, and one holds fewer only where the next starts
/// another surah.
pub proof fn lemma_plan_memorizes_mushaf_once(chapters: Seq<Chapter>, plan: HifzPlan)
    requires
        is_plan_for(plan, daily_lessons(all_verses(chapters), VERSES_PER_DAY as nat)),
    ensures
        new_lessons(plan).flatten() == all_verses(chapters),
        new_lessons(plan).flatten().len() == verses_total(chapters),
        is_chunking(new_lessons(plan), all_verses(chapters), VERSES_PER_DAY as nat),
{
    lemma_all_verses_complete(chapters);
    let days = daily_lessons(all_verses(chapters), VERSES_PER_DAY as nat);
    lemma_daily_lessons_cover_in_order(all_verses(chapters), VERSES_PER_DAY as nat);
    assert forall|d: int| 0 <= d < days.len() implies new_lessons(plan)[d] == days[d] by {
        assert(is_plan_step(plan.steps@[d], days, d));
    }
    assert(new_lessons(plan) =~= days);
}

} // verus!
