//! The exported document: the base mushaf document with the `meta` summary
//! and the Sabqi -> Manzil plan set in it.

use vstd::prelude::*;
use crate::json::Json;
use crate::json::JsonV;
use crate::json::elements_view;
use crate::json::json_parse;
use crate::json::json_pretty;
use crate::json::to_pretty_json;
use crate::json::distinct_keys;
use crate::json::lemma_array_view;
use crate::json::lemma_object_view;
use crate::json::members_view;
use crate::json::member;
use crate::json::field_u64;
use crate::json::parse_json;
use crate::sdk::Chapter;
use crate::sdk::HifzPlan;
use crate::sdk::PlanStep;
use crate::sdk::VerseRef;
use crate::sdk::all_verses;
use crate::sdk::verses_total;
use crate::sdk::lemma_all_verses_complete;
use crate::sdk::flatten;
use crate::text::chars_eq;
use crate::text::decimal;
use crate::text::all_digits;
use crate::text::digits_value;
use crate::text::lemma_decimal_value;
use crate::text::decimal_chars;
use crate::text::string_from_chars;
use crate::text::to_chars;

verus! {

/// The member `key` of an object value; `None` for other values.
pub open spec fn member_of(value: JsonV, key: Seq<char>) -> Option<JsonV> {
    match value {
        JsonV::Object(m) => member(m, key),
        _ => None,
    }
}

/// The JSON number `n`, written in decimal.
pub open spec fn number_v(n: u64) -> JsonV {
    JsonV::Number(Some(n), decimal(n as nat))
}

/// A verse as `{ "chapter": .., "verse": .. }`.
pub open spec fn verse_v(v: VerseRef) -> JsonV {
    JsonV::Object(seq![("chapter"@, number_v(v.chapter as u64)), ("verse"@, number_v(v.verse as u64))])
}

/// A lesson as an array of verses.
pub open spec fn lesson_v(lesson: Seq<VerseRef>) -> JsonV {
    JsonV::Array(lesson.map_values(|v: VerseRef| verse_v(v)))
}

/// One day of the plan as JSON.
pub open spec fn step_v(step: PlanStep) -> JsonV {
    JsonV::Object(
        seq![
            ("day"@, number_v(step.day)),
            ("sabqi_new"@, lesson_v(step.sabqi_new@)),
            ("sabqi_review"@, lesson_v(step.sabqi_review@)),
            ("manzil_review"@, lesson_v(step.manzil_review@)),
        ],
    )
}

/// The plan as JSON.
pub open spec fn plan_v(plan: HifzPlan) -> JsonV {
    JsonV::Object(
        seq![
            ("method"@, JsonV::Str(plan.method@)),
            ("description"@, JsonV::Str(plan.description@)),
            ("verses_per_day"@, number_v(plan.verses_per_day)),
            ("sabqi_review_days"@, number_v(plan.sabqi_review_days)),
            ("manzil_review_days"@, number_v(plan.manzil_review_days)),
            ("total_days"@, number_v(plan.total_days)),
            ("steps"@, JsonV::Array(plan.steps@.map_values(|s: PlanStep| step_v(s)))),
        ],
    )
}

/// The `meta` summary of the mushaf `chapters`: its name and how many
/// chapters and verses it has.
pub open spec fn meta_v(chapters: Seq<Chapter>) -> JsonV {
    JsonV::Object(
        seq![
            ("name"@, JsonV::Str("Moga Hifz Quran"@)),
            (
                "sources"@,
                JsonV::Object(
                    seq![
                        ("chapter_count"@, number_v(chapters.len() as u64)),
                        ("verse_count"@, number_v(all_verses(chapters).len() as u64)),
                    ],
                ),
            ),
        ],
    )
}

/// `members` with `key` set to `value`: the first member with that key gets
/// the value, or a member is added at the end of the list. Read as a map, as
/// serde_json reads an object (ordered by key), this is
/// `serde_json::Map::insert`.
pub open spec fn set_member(members: Seq<(Seq<char>, JsonV)>, key: Seq<char>, value: JsonV) -> Seq<
    (Seq<char>, JsonV),
>
    decreases members.len(),
{
    if members.len() == 0 {
        seq![(key, value)]
    } else if members[0].0 == key {
        members.update(0, (key, value))
    } else {
        seq![members[0]] + set_member(members.drop_first(), key, value)
    }
}

/// The exported document of the base document `base`: its members with
/// `meta` and `hifz_plan` set.
pub open spec fn combined_v(base: Seq<(Seq<char>, JsonV)>, chapters: Seq<Chapter>, plan: HifzPlan) -> JsonV {
    JsonV::Object(set_member(set_member(base, "meta"@, meta_v(chapters)), "hifz_plan"@, plan_v(plan)))
}

proof fn lemma_set_member_at(members: Seq<(Seq<char>, JsonV)>, key: Seq<char>, value: JsonV, i: int)
    requires
        0 <= i <= members.len(),
        forall|j: int| 0 <= j < i ==> members[j].0 != key,
        i < members.len() ==> members[i].0 == key,
    ensures
        set_member(members, key, value) == if i < members.len() {
            members.update(i, (key, value))
        } else {
            members.push((key, value))
        },
    decreases i,
{
    if i == 0 {
        if members.len() == 0 {
            assert(seq![(key, value)] =~= members.push((key, value)));
        }
    } else {
        let rest = members.drop_first();
        assert forall|j: int| 0 <= j < i - 1 implies rest[j].0 != key by {
            assert(rest[j] == members[j + 1]);
        }
        lemma_set_member_at(rest, key, value, i - 1);
        if i < members.len() {
            assert(seq![members[0]] + rest.update(i - 1, (key, value)) =~= members.update(i, (key, value)));
        } else {
            assert(seq![members[0]] + rest.push((key, value)) =~= members.push((key, value)));
        }
    }
}

/// Reading a key after setting it gives the value set; every other key
/// reads as before.
pub proof fn lemma_set_member_reads(members: Seq<(Seq<char>, JsonV)>, key: Seq<char>, value: JsonV, other: Seq<char>)
    ensures
        member(set_member(members, key, value), key) == Some(value),
        other != key ==> member(set_member(members, key, value), other) == member(members, other),
    decreases members.len(),
{
    if members.len() == 0 {
        let u = seq![(key, value)];
        assert(u.drop_first() =~= Seq::<(Seq<char>, JsonV)>::empty());
        assert(member(u.drop_first(), other) is None);
    } else {
        if members[0].0 == key {
            let u = members.update(0, (key, value));
            assert(u.drop_first() =~= members.drop_first());
        } else {
            lemma_set_member_reads(members.drop_first(), key, value, other);
            let u = seq![members[0]] + set_member(members.drop_first(), key, value);
            assert(u.drop_first() =~= set_member(members.drop_first(), key, value));
        }
    }
}

/// In the exported document, `meta` reads as the mushaf's summary,
/// `hifz_plan` as the plan, and every other key as in the base document.
pub proof fn lemma_combined_reads(base: Seq<(Seq<char>, JsonV)>, chapters: Seq<Chapter>, plan: HifzPlan, other: Seq<char>)
    ensures
        combined_v(base, chapters, plan) matches JsonV::Object(m) && {
            &&& member(m, "meta"@) == Some(meta_v(chapters))
            &&& member(m, "hifz_plan"@) == Some(plan_v(plan))
            &&& other != "meta"@ && other != "hifz_plan"@ ==> member(m, other) == member(base, other)
        },
{
    reveal_strlit("meta");
    reveal_strlit("hifz_plan");
    assert("meta"@ != "hifz_plan"@) by {
        assert("meta"@.len() != "hifz_plan"@.len());
    }
    let m1 = set_member(base, "meta"@, meta_v(chapters));
    lemma_set_member_reads(base, "meta"@, meta_v(chapters), other);
    lemma_set_member_reads(m1, "hifz_plan"@, plan_v(plan), other);
    lemma_set_member_reads(m1, "hifz_plan"@, plan_v(plan), "meta"@);
}

/// Setting a key keeps each key once.
pub proof fn lemma_set_member_distinct(members: Seq<(Seq<char>, JsonV)>, key: Seq<char>, value: JsonV)
    requires
        distinct_keys(members),
    ensures
        distinct_keys(set_member(members, key, value)),
    decreases members.len(),
{
    let out = set_member(members, key, value);
    if members.len() == 0 {
    } else if members[0].0 == key {
        assert forall|i: int, j: int| 0 <= i < j < out.len() implies out[i].0 != out[j].0 by {
            assert(out[j] == members[j]);
            if i > 0 {
                assert(out[i] == members[i]);
            }
        }
    } else {
        let rest = members.drop_first();
        assert forall|i: int, j: int| 0 <= i < j < rest.len() implies rest[i].0 != rest[j].0 by {
            assert(rest[i] == members[i + 1]);
            assert(rest[j] == members[j + 1]);
        }
        lemma_set_member_distinct(rest, key, value);
        let tail = set_member(rest, key, value);
        lemma_set_member_keys(rest, key, value);
        assert forall|i: int, j: int| 0 <= i < j < out.len() implies out[i].0 != out[j].0 by {
            if i == 0 {
                assert(out[j] == tail[j - 1]);
                if tail[j - 1].0 != key {
                    let q = choose|q: int| 0 <= q < rest.len() && rest[q].0 == tail[j - 1].0;
                    assert(rest[q] == members[q + 1]);
                }
            } else {
                assert(out[i] == tail[i - 1]);
                assert(out[j] == tail[j - 1]);
            }
        }
    }
}

/// Every key of `set_member(members, key, value)` is `key` or a key of
/// `members`.
proof fn lemma_set_member_keys(members: Seq<(Seq<char>, JsonV)>, key: Seq<char>, value: JsonV)
    ensures
        forall|i: int|
            0 <= i < set_member(members, key, value).len() ==> #[trigger] set_member(members, key, value)[i].0 == key
                || exists|q: int| 0 <= q < members.len() && members[q].0 == set_member(members, key, value)[i].0,
    decreases members.len(),
{
    let out = set_member(members, key, value);
    if members.len() > 0 {
        if members[0].0 == key {
            assert forall|i: int| 0 <= i < out.len() implies #[trigger] out[i].0 == key
                || exists|q: int| 0 <= q < members.len() && members[q].0 == out[i].0 by {
                if i > 0 {
                    assert(members[i].0 == out[i].0);
                }
            }
        } else {
            let rest = members.drop_first();
            lemma_set_member_keys(rest, key, value);
            let tail = set_member(rest, key, value);
            assert forall|i: int| 0 <= i < out.len() implies #[trigger] out[i].0 == key
                || exists|q: int| 0 <= q < members.len() && members[q].0 == out[i].0 by {
                if i == 0 {
                    assert(members[0].0 == out[0].0);
                } else {
                    assert(out[i] == tail[i - 1]);
                    if tail[i - 1].0 != key {
                        let q = choose|q: int| 0 <= q < rest.len() && rest[q].0 == tail[i - 1].0;
                        assert(members[q + 1] == rest[q]);
                    }
                }
            }
        }
    }
}

/// Set `key` to `value` in the members of an object.
fn set_member_of(members: &mut Vec<(String, Json)>, key: String, value: Json)
    ensures
        members_view(final(members)@) == set_member(members_view(old(members)@), key@, value@),
{
    let ghost before = members_view(members@);
    let k = to_chars(key.as_str());
    let n: usize = members.len();
    let mut i: usize = 0;
    while i < n
        invariant
            n == members@.len(),
            i <= n,
            before == members_view(members@),
            members@ == old(members)@,
            k@ == key@,
            forall|j: int| 0 <= j < i ==> before[j].0 != key@,
        decreases n - i,
    {
        let name = to_chars(members[i].0.as_str());
        assert(before[i as int].0 == members@[i as int].0@);
        if chars_eq(&name, &k) {
            proof {
                lemma_set_member_at(before, key@, value@, i as int);
            }
            let ghost kv = key@;
            let ghost vv = value@;
            members[i] = (key, value);
            assert(members_view(members@) =~= before.update(i as int, (kv, vv)));
            return;
        }
        i += 1;
    }
    proof {
        lemma_set_member_at(before, key@, value@, n as int);
    }
    let ghost kv = key@;
    let ghost vv = value@;
    members.push((key, value));
    assert(members_view(members@) =~= before.push((kv, vv)));
}

/// The JSON number `n`.
fn number_json(n: u64) -> (j: Json)
    ensures
        j@ == number_v(n),
{
    Json::Number(Some(n), string_from_chars(&decimal_chars(n)))
}

/// A verse as JSON.
fn verse_json(v: VerseRef) -> (j: Json)
    ensures
        j@ == verse_v(v),
{
    let mut m: Vec<(String, Json)> = Vec::new();
    m.push((String::from_str("chapter"), number_json(v.chapter as u64)));
    m.push((String::from_str("verse"), number_json(v.verse as u64)));
    proof {
        lemma_object_view(m);
        assert(members_view(m@) =~= seq![("chapter"@, number_v(v.chapter as u64)), ("verse"@, number_v(v.verse as u64))]);
    }
    Json::Object(m)
}

/// A lesson as JSON.
fn lesson_json(lesson: &Vec<VerseRef>) -> (j: Json)
    ensures
        j@ == lesson_v(lesson@),
{
    let mut a: Vec<Json> = Vec::new();
    let n: usize = lesson.len();
    for i in 0..n
        invariant
            n == lesson@.len(),
            elements_view(a@) == lesson@.take(i as int).map_values(|v: VerseRef| verse_v(v)),
    {
        let ghost before = elements_view(a@);
        a.push(verse_json(lesson[i]));
        assert(elements_view(a@) =~= before.push(verse_v(lesson@[i as int])));
        assert(lesson@.take(i + 1) == lesson@.take(i as int).push(lesson@[i as int]));
        assert(lesson@.take(i + 1).map_values(|v: VerseRef| verse_v(v)) =~= lesson@.take(i as int).map_values(
            |v: VerseRef| verse_v(v),
        ).push(verse_v(lesson@[i as int])));
    }
    proof {
        assert(lesson@.take(n as int) == lesson@);
        lemma_array_view(a);
    }
    Json::Array(a)
}

/// One day of the plan as JSON.
fn step_json(step: &PlanStep) -> (j: Json)
    ensures
        j@ == step_v(*step),
{
    let mut m: Vec<(String, Json)> = Vec::new();
    m.push((String::from_str("day"), number_json(step.day)));
    m.push((String::from_str("sabqi_new"), lesson_json(&step.sabqi_new)));
    m.push((String::from_str("sabqi_review"), lesson_json(&step.sabqi_review)));
    m.push((String::from_str("manzil_review"), lesson_json(&step.manzil_review)));
    proof {
        lemma_object_view(m);
        assert(members_view(m@) =~= seq![
            ("day"@, number_v(step.day)),
            ("sabqi_new"@, lesson_v(step.sabqi_new@)),
            ("sabqi_review"@, lesson_v(step.sabqi_review@)),
            ("manzil_review"@, lesson_v(step.manzil_review@)),
        ]);
    }
    Json::Object(m)
}

/// The plan as JSON.
pub fn plan_json(plan: &HifzPlan) -> (j: Json)
    ensures
        j@ == plan_v(*plan),
{
    let mut steps: Vec<Json> = Vec::new();
    let n: usize = plan.steps.len();
    for i in 0..n
        invariant
            n == plan.steps@.len(),
            elements_view(steps@) == plan.steps@.take(i as int).map_values(|s: PlanStep| step_v(s)),
    {
        let ghost before = elements_view(steps@);
        steps.push(step_json(&plan.steps[i]));
        assert(elements_view(steps@) =~= before.push(step_v(plan.steps@[i as int])));
        assert(plan.steps@.take(i + 1) == plan.steps@.take(i as int).push(plan.steps@[i as int]));
        assert(plan.steps@.take(i + 1).map_values(|s: PlanStep| step_v(s)) =~= plan.steps@.take(
            i as int,
        ).map_values(|s: PlanStep| step_v(s)).push(step_v(plan.steps@[i as int])));
    }
    proof {
        assert(plan.steps@.take(n as int) == plan.steps@);
        lemma_array_view(steps);
    }
    let mut m: Vec<(String, Json)> = Vec::new();
    m.push((String::from_str("method"), Json::Str(plan.method.clone())));
    m.push((String::from_str("description"), Json::Str(plan.description.clone())));
    m.push((String::from_str("verses_per_day"), number_json(plan.verses_per_day)));
    m.push((String::from_str("sabqi_review_days"), number_json(plan.sabqi_review_days)));
    m.push((String::from_str("manzil_review_days"), number_json(plan.manzil_review_days)));
    m.push((String::from_str("total_days"), number_json(plan.total_days)));
    m.push((String::from_str("steps"), Json::Array(steps)));
    proof {
        lemma_object_view(m);
        assert(members_view(m@) =~= seq![
            ("method"@, JsonV::Str(plan.method@)),
            ("description"@, JsonV::Str(plan.description@)),
            ("verses_per_day"@, number_v(plan.verses_per_day)),
            ("sabqi_review_days"@, number_v(plan.sabqi_review_days)),
            ("manzil_review_days"@, number_v(plan.manzil_review_days)),
            ("total_days"@, number_v(plan.total_days)),
            ("steps"@, JsonV::Array(plan.steps@.map_values(|s: PlanStep| step_v(s)))),
        ]);
    }
    Json::Object(m)
}

/// The `meta` summary of the mushaf as JSON.
pub fn meta_json(chapters: &[Chapter]) -> (j: Json)
    ensures
        j@ == meta_v(chapters@),
{
    let chapter_count: u64 = chapters.len() as u64;
    let verse_count: u64 = flatten(chapters).len() as u64;
    let mut sources: Vec<(String, Json)> = Vec::new();
    sources.push((String::from_str("chapter_count"), number_json(chapter_count)));
    sources.push((String::from_str("verse_count"), number_json(verse_count)));
    proof {
        lemma_object_view(sources);
        assert(members_view(sources@) =~= seq![
            ("chapter_count"@, number_v(chapters@.len() as u64)),
            ("verse_count"@, number_v(all_verses(chapters@).len() as u64)),
        ]);
    }
    let mut m: Vec<(String, Json)> = Vec::new();
    m.push((String::from_str("name"), Json::Str(String::from_str("Moga Hifz Quran"))));
    m.push((String::from_str("sources"), Json::Object(sources)));
    proof {
        lemma_object_view(m);
        assert(members_view(m@) =~= seq![
            ("name"@, JsonV::Str("Moga Hifz Quran"@)),
            (
                "sources"@,
                JsonV::Object(
                    seq![
                        ("chapter_count"@, number_v(chapters@.len() as u64)),
                        ("verse_count"@, number_v(all_verses(chapters@).len() as u64)),
                    ],
                ),
            ),
        ]);
    }
    Json::Object(m)
}

/// Combine the base mushaf document `raw` with the plan: the document's
/// members with `meta` (name, chapter and verse counts) and `hifz_plan` set.
/// `None` when `raw` is not a JSON object.
pub fn combined_document(raw: &str, chapters: &[Chapter], plan: &HifzPlan) -> (doc: Option<Json>)
    ensures
        match json_parse(raw@) {
            Some(JsonV::Object(base)) => doc matches Some(d) && d@ == combined_v(base, chapters@, *plan),
            _ => doc is None,
        },
        match doc {
            Some(d) => d@ matches JsonV::Object(out) ==> distinct_keys(out),
            None => true,
        },
{
    match parse_json(raw) {
        Some(Json::Object(members)) => {
            let mut members = members;
            proof {
                lemma_object_view(members);
                let base = members_view(members@);
                lemma_set_member_distinct(base, "meta"@, meta_v(chapters@));
                lemma_set_member_distinct(set_member(base, "meta"@, meta_v(chapters@)), "hifz_plan"@, plan_v(*plan));
            }
            let ghost base = members_view(members@);
            set_member_of(&mut members, String::from_str("meta"), meta_json(chapters));
            set_member_of(&mut members, String::from_str("hifz_plan"), plan_json(plan));
            proof {
                lemma_object_view(members);
                assert(members_view(members@) == set_member(set_member(base, "meta"@, meta_v(chapters@)), "hifz_plan"@, plan_v(*plan)));
                assert(distinct_keys(members_view(members@)));
            }
            Some(Json::Object(members))
        },
        _ => None,
    }
}

/// The text of `data/quran.json`: the exported document written by
/// `serde_json::to_string_pretty`. `None` when `raw` is not a JSON object,
/// or when serde_json cannot write the document.
pub fn export_text(raw: &str, chapters: &[Chapter], plan: &HifzPlan) -> (text: Option<String>)
    ensures
        match json_parse(raw@) {
            Some(JsonV::Object(base)) => match text {
                Some(t) => json_pretty(combined_v(base, chapters@, *plan)) == Some(t@),
                None => json_pretty(combined_v(base, chapters@, *plan)) is None,
            },
            _ => text is None,
        },
{
    match combined_document(raw, chapters, plan) {
        Some(doc) => to_pretty_json(&doc),
        None => None,
    }
}

/// The member found under `key` is the first one with that key.
pub proof fn lemma_member_at(m: Seq<(Seq<char>, JsonV)>, key: Seq<char>, i: int)
    requires
        0 <= i < m.len(),
        m[i].0 == key,
        forall|j: int| 0 <= j < i ==> m[j].0 != key,
    ensures
        member(m, key) == Some(m[i].1),
    decreases i,
{
    if i > 0 {
        let rest = m.drop_first();
        assert forall|j: int| 0 <= j < i - 1 implies rest[j].0 != key by {
            assert(rest[j] == m[j + 1]);
        }
        assert(rest[i - 1] == m[i]);
        lemma_member_at(rest, key, i - 1);
    }
}

/// A number written for export is the number in decimal digits.
pub proof fn lemma_number_reads(n: u64)
    ensures
        number_v(n) matches JsonV::Number(v, text) && v == Some(n) && all_digits(text) && digits_value(text)
            == n,
{
    lemma_decimal_value(n as nat);
}

/// A verse written for export reads back: its `chapter` and `verse` fields
/// give the verse's chapter and verse numbers.
pub proof fn lemma_verse_reads(v: VerseRef)
    ensures
        field_u64(verse_v(v), "chapter"@) == Some(v.chapter as u64),
        field_u64(verse_v(v), "verse"@) == Some(v.verse as u64),
{
    reveal_strlit("chapter");
    reveal_strlit("verse");
    let m = seq![("chapter"@, number_v(v.chapter as u64)), ("verse"@, number_v(v.verse as u64))];
    assert("chapter"@ != "verse"@) by {
        assert("chapter"@.len() != "verse"@.len());
    }
    lemma_member_at(m, "chapter"@, 0);
    lemma_member_at(m, "verse"@, 1);
}

/// A lesson written for export reads back: one element per verse, in
/// order, each giving that verse's chapter and verse numbers.
pub proof fn lemma_lesson_reads(lesson: Seq<VerseRef>)
    ensures
        lesson_v(lesson) matches JsonV::Array(a) && a.len() == lesson.len() && forall|i: int|
            0 <= i < lesson.len() ==> field_u64(#[trigger] a[i], "chapter"@) == Some(lesson[i].chapter as u64)
                && field_u64(a[i], "verse"@) == Some(lesson[i].verse as u64),
{
    let a = lesson.map_values(|v: VerseRef| verse_v(v));
    assert forall|i: int| 0 <= i < lesson.len() implies field_u64(#[trigger] a[i], "chapter"@) == Some(
        lesson[i].chapter as u64,
    ) && field_u64(a[i], "verse"@) == Some(lesson[i].verse as u64) by {
        lemma_verse_reads(lesson[i]);
    }
}

/// A day written for export reads back as that day: its `day` field is the
/// day number, and `sabqi_new`, `sabqi_review` and `manzil_review` are the
/// day's new lesson, Sabqi review and Manzil review.
pub proof fn lemma_step_reads(step: PlanStep)
    ensures
        field_u64(step_v(step), "day"@) == Some(step.day),
        member_of(step_v(step), "sabqi_new"@) == Some(lesson_v(step.sabqi_new@)),
        member_of(step_v(step), "sabqi_review"@) == Some(lesson_v(step.sabqi_review@)),
        member_of(step_v(step), "manzil_review"@) == Some(lesson_v(step.manzil_review@)),
{
    reveal_strlit("day");
    reveal_strlit("sabqi_new");
    reveal_strlit("sabqi_review");
    reveal_strlit("manzil_review");
    let m = seq![
        ("day"@, number_v(step.day)),
        ("sabqi_new"@, lesson_v(step.sabqi_new@)),
        ("sabqi_review"@, lesson_v(step.sabqi_review@)),
        ("manzil_review"@, lesson_v(step.manzil_review@)),
    ];
    assert forall|i: int, j: int| 0 <= i < j < 4 implies m[i].0 != m[j].0 by {
        assert(m[i].0.len() != m[j].0.len());
    }
    lemma_member_at(m, "day"@, 0);
    lemma_member_at(m, "sabqi_new"@, 1);
    lemma_member_at(m, "sabqi_review"@, 2);
    lemma_member_at(m, "manzil_review"@, 3);
}

/// The plan written for export reads back as the plan: its method and
/// description texts, its numbers, and one step per day, in order, each the
/// export of that day.
pub proof fn lemma_plan_reads(plan: HifzPlan)
    ensures
        member_of(plan_v(plan), "method"@) == Some(JsonV::Str(plan.method@)),
        member_of(plan_v(plan), "description"@) == Some(JsonV::Str(plan.description@)),
        field_u64(plan_v(plan), "verses_per_day"@) == Some(plan.verses_per_day),
        field_u64(plan_v(plan), "sabqi_review_days"@) == Some(plan.sabqi_review_days),
        field_u64(plan_v(plan), "manzil_review_days"@) == Some(plan.manzil_review_days),
        field_u64(plan_v(plan), "total_days"@) == Some(plan.total_days),
        member_of(plan_v(plan), "steps"@) matches Some(JsonV::Array(steps)) && steps.len() == plan.steps@.len()
            && forall|i: int| 0 <= i < steps.len() ==> #[trigger] steps[i] == step_v(plan.steps@[i]),
{
    reveal_strlit("method");
    reveal_strlit("description");
    reveal_strlit("verses_per_day");
    reveal_strlit("sabqi_review_days");
    reveal_strlit("manzil_review_days");
    reveal_strlit("total_days");
    reveal_strlit("steps");
    let m = seq![
        ("method"@, JsonV::Str(plan.method@)),
        ("description"@, JsonV::Str(plan.description@)),
        ("verses_per_day"@, number_v(plan.verses_per_day)),
        ("sabqi_review_days"@, number_v(plan.sabqi_review_days)),
        ("manzil_review_days"@, number_v(plan.manzil_review_days)),
        ("total_days"@, number_v(plan.total_days)),
        ("steps"@, JsonV::Array(plan.steps@.map_values(|s: PlanStep| step_v(s)))),
    ];
    assert forall|i: int, j: int| 0 <= i < j < 7 implies m[i].0 != m[j].0 by {
        assert(m[i].0.len() != m[j].0.len());
    }
    lemma_member_at(m, "method"@, 0);
    lemma_member_at(m, "description"@, 1);
    lemma_member_at(m, "verses_per_day"@, 2);
    lemma_member_at(m, "sabqi_review_days"@, 3);
    lemma_member_at(m, "manzil_review_days"@, 4);
    lemma_member_at(m, "total_days"@, 5);
    lemma_member_at(m, "steps"@, 6);
}

/// The summary written for export reads back: its name, and under
/// `sources` the number of chapters and the number of verses of all the
/// chapters together.
pub proof fn lemma_meta_reads(chapters: Seq<Chapter>)
    ensures
        member_of(meta_v(chapters), "name"@) == Some(JsonV::Str("Moga Hifz Quran"@)),
        member_of(meta_v(chapters), "sources"@) matches Some(src) && field_u64(src, "chapter_count"@) == Some(
            chapters.len() as u64,
        ) && field_u64(src, "verse_count"@) == Some(verses_total(chapters) as u64),
{
    reveal_strlit("name");
    reveal_strlit("sources");
    reveal_strlit("chapter_count");
    reveal_strlit("verse_count");
    lemma_all_verses_complete(chapters);
    let inner = seq![
        ("chapter_count"@, number_v(chapters.len() as u64)),
        ("verse_count"@, number_v(all_verses(chapters).len() as u64)),
    ];
    let m = seq![("name"@, JsonV::Str("Moga Hifz Quran"@)), ("sources"@, JsonV::Object(inner))];
    assert("name"@ != "sources"@) by {
        assert("name"@.len() != "sources"@.len());
    }
    assert("chapter_count"@ != "verse_count"@) by {
        assert("chapter_count"@.len() != "verse_count"@.len());
    }
    lemma_member_at(m, "name"@, 0);
    lemma_member_at(m, "sources"@, 1);
    lemma_member_at(inner, "chapter_count"@, 0);
    lemma_member_at(inner, "verse_count"@, 1);
}

} // verus!
