//! What a guest may see of an owner's DRC reply: an explicit output
//! vocabulary, applied at every depth, so that metadata the owner gains later
//! never reaches a guest by default.
use vstd::prelude::*;
use vstd::string::StringExecFns;

verus! {

/// A JSON document. Numbers keep their text.
#[derive(Debug, PartialEq, Eq)]
pub enum Json {
    Null,
    Bool(bool),
    Number(String),
    Text(String),
    Array(Vec<Json>),
    Object(Vec<(String, Json)>),
}

/// A copy of a document, field by field.
pub fn copy_json(j: &Json) -> (r: Json)
    ensures
        json_view(r) == json_view(*j),
    decreases j,
{
    match j {
        Json::Null => Json::Null,
        Json::Bool(b) => Json::Bool(*b),
        Json::Number(n) => Json::Number(n.clone()),
        Json::Text(t) => Json::Text(t.clone()),
        Json::Array(a) => {
            let mut out: Vec<Json> = Vec::new();
            let mut i: usize = 0;
            while i < a.len()
                invariant
                    i <= a@.len(),
                    *j == Json::Array(*a),
                    out@.len() == i,
                    forall|k: int| 0 <= k < i ==> json_view(#[trigger] out@[k]) == json_view(a@[k]),
                decreases a@.len() - i,
            {
                proof {
                    assert(decreases_to!(*j => (*j)->Array_0));
                    assert(decreases_to!(*a => a@));
                    assert(decreases_to!(a@ => a@[i as int]));
                }
                out.push(copy_json(&a[i]));
                i = i + 1;
            }
            let r = Json::Array(out);
            proof {
                let x = json_view(r);
                let y = json_view(*j);
                assert(x->Array_0 =~= y->Array_0);
            }
            r
        },
        Json::Object(fs) => {
            let mut out: Vec<(String, Json)> = Vec::new();
            let mut i: usize = 0;
            while i < fs.len()
                invariant
                    i <= fs@.len(),
                    *j == Json::Object(*fs),
                    out@.len() == i,
                    forall|k: int| 0 <= k < i ==> (#[trigger] out@[k]).0@ == fs@[k].0@ && json_view(out@[k].1) == json_view(fs@[k].1),
                decreases fs@.len() - i,
            {
                proof {
                    assert(decreases_to!(*j => (*j)->Object_0));
                    assert(decreases_to!(*fs => fs@));
                    assert(decreases_to!(fs@ => fs@[i as int]));
                    assert(decreases_to!(fs@[i as int] => fs@[i as int].1));
                }
                let v = copy_json(&fs[i].1);
                out.push((fs[i].0.clone(), v));
                i = i + 1;
            }
            let r = Json::Object(out);
            proof {
                let x = json_view(r);
                let y = json_view(*j);
                assert(x->Object_0 =~= y->Object_0);
            }
            r
        },
    }
}

impl Clone for Json {
    fn clone(&self) -> (r: Self)
        ensures
            json_view(r) == json_view(*self),
    {
        copy_json(self)
    }
}

pub enum JsonView {
    Null,
    Bool(bool),
    Number(Seq<char>),
    Text(Seq<char>),
    Array(Seq<JsonView>),
    Object(Seq<(Seq<char>, JsonView)>),
}

pub open spec fn json_view(j: Json) -> JsonView
    decreases j,
{
    match j {
        Json::Null => JsonView::Null,
        Json::Bool(b) => JsonView::Bool(b),
        Json::Number(n) => JsonView::Number(n@),
        Json::Text(t) => JsonView::Text(t@),
        Json::Array(a) => JsonView::Array(
            Seq::new(a@.len(), |i: int| if 0 <= i < a@.len() { json_view(a@[i]) } else { JsonView::Null }),
        ),
        Json::Object(fs) => JsonView::Object(
            Seq::new(
                fs@.len(),
                |i: int|
                    if 0 <= i < fs@.len() {
                        (fs@[i].0@, json_view(fs@[i].1))
                    } else {
                        (Seq::empty(), JsonView::Null)
                    },
            ),
        ),
    }
}

/// The keys a guest may see.
pub open spec fn guest_key(k: Seq<char>) -> bool {
    ||| k == "rows"@
    ||| k == "next"@
    ||| k == "scanned"@
    ||| k == "metric"@
    ||| k == "waived"@
    ||| k == "check"@
    ||| k == "local"@
    ||| k == "global"@
    ||| k == "kind"@
    ||| k == "status"@
    ||| k == "bbox_um"@
    ||| k == "points"@
    ||| k == "name"@
    ||| k == "name_truncated"@
    ||| k == "description"@
    ||| k == "errors"@
    ||| k == "declared"@
    ||| k == "original"@
    ||| k == "hit"@
    ||| k == "remaining"@
    ||| k == "selection_rev"@
    ||| k == "precision"@
    ||| k == "start"@
    ||| k == "total"@
    ||| k == "points_dbu"@
    ||| k == "points_um"@
    ||| k == "segments"@
    ||| k == "endpoints_um"@
    ||| k == "distance_um"@
    ||| k == "offset"@
    ||| k == "navigation"@
    ||| k == "center_um"@
    ||| k == "width_um"@
}

fn same_text(a: &str, b: &str) -> (r: bool)
    ensures
        r == (a@ == b@),
{
    String::from_str(a) == String::from_str(b)
}

pub fn is_guest_key(k: &str) -> (r: bool)
    ensures
        r == guest_key(k@),
{
    same_text(k, "rows") || same_text(k, "next") || same_text(k, "scanned") || same_text(k, "metric") || same_text(k, "waived") || same_text(k, "check") || same_text(k, "local") || same_text(k, "global") || same_text(k, "kind") || same_text(k, "status") || same_text(k, "bbox_um") || same_text(k, "points") || same_text(k, "name") || same_text(k, "name_truncated") || same_text(k, "description") || same_text(k, "errors") || same_text(k, "declared") || same_text(k, "original") || same_text(k, "hit") || same_text(k, "remaining") || same_text(k, "selection_rev") || same_text(k, "precision") || same_text(k, "start") || same_text(k, "total") || same_text(k, "points_dbu") || same_text(k, "points_um") || same_text(k, "segments") || same_text(k, "endpoints_um") || same_text(k, "distance_um") || same_text(k, "offset") || same_text(k, "navigation") || same_text(k, "center_um") || same_text(k, "width_um")
}

/// A document with every object narrowed to guest keys, at every depth.
pub open spec fn projected(j: JsonView) -> JsonView
    decreases j,
{
    match j {
        JsonView::Array(a) => JsonView::Array(
            Seq::new(a.len(), |i: int| if 0 <= i < a.len() { projected(a[i]) } else { JsonView::Null }),
        ),
        JsonView::Object(fs) => JsonView::Object(projected_fields(fs)),
        _ => j,
    }
}

/// The guest fields of an object, in order, each projected.
pub open spec fn projected_fields(fs: Seq<(Seq<char>, JsonView)>) -> Seq<(Seq<char>, JsonView)>
    decreases fs,
{
    if fs.len() == 0 {
        Seq::empty()
    } else {
        let rest = projected_fields(fs.drop_last());
        let last = fs[fs.len() - 1];
        if guest_key(last.0) {
            rest.push((last.0, projected(last.1)))
        } else {
            rest
        }
    }
}

/// Narrows a document to what a guest may see.
pub fn project(j: &Json) -> (r: Json)
    ensures
        json_view(r) == projected(json_view(*j)),
    decreases j,
{
    match j {
        Json::Null => Json::Null,
        Json::Bool(b) => Json::Bool(*b),
        Json::Number(n) => Json::Number(n.clone()),
        Json::Text(t) => Json::Text(t.clone()),
        Json::Array(a) => {
            let ghost va = Seq::new(
                a@.len(),
                |i: int|
                    if 0 <= i < a@.len() {
                        json_view(a@[i])
                    } else {
                        JsonView::Null
                    },
            );
            let mut out: Vec<Json> = Vec::new();
            let mut i: usize = 0;
            while i < a.len()
                invariant
                    i <= a@.len(),
                    *j == Json::Array(*a),
                    va.len() == a@.len(),
                    forall|k: int| 0 <= k < a@.len() ==> #[trigger] va[k] == json_view(a@[k]),
                    out@.len() == i,
                    forall|k: int| 0 <= k < i ==> json_view(#[trigger] out@[k]) == projected(va[k]),
                decreases a@.len() - i,
            {
                assert(decreases_to!(*j => (*j)->Array_0));
                assert(decreases_to!((*j)->Array_0 => (*j)->Array_0@));
                assert(decreases_to!((*j)->Array_0@ => (*j)->Array_0@[i as int]));
                let p = project(&a[i]);
                out.push(p);
                i = i + 1;
            }
            proof {
                let jv = json_view(*j);
                assert(jv->Array_0 =~= va);
                assert(jv == JsonView::Array(va));
            }
            let r = Json::Array(out);
            proof {
                let jv = json_view(*j);
                assert(json_view(r)->Array_0 =~= projected(jv)->Array_0);
            }
            r
        },
        Json::Object(fs) => {
            let ghost vf = Seq::new(
                fs@.len(),
                |i: int|
                    if 0 <= i < fs@.len() {
                        (fs@[i].0@, json_view(fs@[i].1))
                    } else {
                        (Seq::empty(), JsonView::Null)
                    },
            );
            let mut out: Vec<(String, Json)> = Vec::new();
            let mut i: usize = 0;
            assert(vf.take(0) =~= Seq::<(Seq<char>, JsonView)>::empty());
            while i < fs.len()
                invariant
                    i <= fs@.len(),
                    *j == Json::Object(*fs),
                    vf.len() == fs@.len(),
                    forall|k: int| 0 <= k < fs@.len() ==> #[trigger] vf[k] == (fs@[k].0@, json_view(fs@[k].1)),
                    Seq::new(out@.len(), |k: int| (out@[k].0@, json_view(out@[k].1)))
                        == projected_fields(vf.take(i as int)),
                decreases fs@.len() - i,
            {
                let ghost before = Seq::new(out@.len(), |k: int| (out@[k].0@, json_view(out@[k].1)));
                let key = &fs[i].0;
                assert(vf.take(i + 1).drop_last() =~= vf.take(i as int));
                assert(vf.take(i + 1)[i as int] == vf[i as int]);
                if is_guest_key(key.as_str()) {
                    assert(decreases_to!(*j => (*j)->Object_0));
                    assert(decreases_to!((*j)->Object_0 => (*j)->Object_0@));
                    assert(decreases_to!((*j)->Object_0@ => (*j)->Object_0@[i as int]));
                    assert(decreases_to!((*j)->Object_0@[i as int] => (*j)->Object_0@[i as int].1));
                    let v = project(&fs[i].1);
                    out.push((key.clone(), v));
                    assert(Seq::new(out@.len(), |k: int| (out@[k].0@, json_view(out@[k].1))) =~= before.push(
                        (vf[i as int].0, projected(vf[i as int].1)),
                    ));
                }
                i = i + 1;
            }
            proof {
                assert(vf.take(fs@.len() as int) =~= vf);
                let jv = json_view(*j);
                assert(jv->Object_0 =~= vf);
                assert(jv == JsonView::Object(vf));
            }
            let r = Json::Object(out);
            proof {
                let jv = json_view(*j);
                assert(json_view(r)->Object_0 =~= projected(jv)->Object_0);
            }
            r
        },
    }
}

/// Every object key, at every depth, is a guest key.
pub open spec fn only_guest_keys(j: JsonView) -> bool
    decreases j,
{
    match j {
        JsonView::Array(a) => forall|i: int| 0 <= i < a.len() ==> only_guest_keys(#[trigger] a[i]),
        JsonView::Object(fs) => forall|i: int|
            0 <= i < fs.len() ==> guest_key(#[trigger] fs[i].0) && only_guest_keys(fs[i].1),
        _ => true,
    }
}

proof fn lemma_fields_guest(fs: Seq<(Seq<char>, JsonView)>)
    requires
        forall|i: int| 0 <= i < fs.len() ==> only_guest_keys(projected(#[trigger] fs[i].1)),
    ensures
        forall|i: int|
            0 <= i < projected_fields(fs).len() ==> guest_key(#[trigger] projected_fields(fs)[i].0)
                && only_guest_keys(projected_fields(fs)[i].1),
    decreases fs.len(),
{
    if fs.len() > 0 {
        let init = fs.drop_last();
        assert forall|i: int| 0 <= i < init.len() implies only_guest_keys(projected(#[trigger] init[i].1)) by {
            assert(init[i] == fs[i]);
        }
        lemma_fields_guest(init);
        let rest = projected_fields(init);
        let pf = projected_fields(fs);
        let last = fs[fs.len() - 1];
        assert(pf == if guest_key(last.0) {
            rest.push((last.0, projected(last.1)))
        } else {
            rest
        });
        assert(only_guest_keys(projected(last.1)));
        assert forall|i: int| 0 <= i < pf.len() implies guest_key(#[trigger] pf[i].0) && only_guest_keys(
            pf[i].1,
        ) by {
            if i < rest.len() {
                assert(pf[i] == rest[i]);
            } else {
                assert(guest_key(last.0));
                assert(pf[i] == (last.0, projected(last.1)));
            }
        }
    }
}

/// Whatever the owner's reply holds, the projection shows a guest only guest
/// keys, at every depth: owner metadata added later is never inherited.
pub proof fn law_projection_shows_only_guest_keys(j: JsonView)
    ensures
        only_guest_keys(projected(j)),
    decreases j,
{
    match j {
        JsonView::Array(a) => {
            let p = projected(j);
            let s = Seq::new(a.len(), |i: int| if 0 <= i < a.len() { projected(a[i]) } else { JsonView::Null });
            assert(p->Array_0 =~= s);
            assert forall|i: int| 0 <= i < s.len() implies only_guest_keys(#[trigger] s[i]) by {
                law_projection_shows_only_guest_keys(a[i]);
            }
            assert(p is Array);
            assert forall|i: int| 0 <= i < p->Array_0.len() implies only_guest_keys(
                #[trigger] p->Array_0[i],
            ) by {
                assert(p->Array_0[i] == s[i]);
            }
            assert(only_guest_keys(p));
        },
        JsonView::Object(fs) => {
            assert forall|i: int| 0 <= i < fs.len() implies only_guest_keys(projected(#[trigger] fs[i].1)) by {
                law_projection_shows_only_guest_keys(fs[i].1);
            }
            lemma_fields_guest(fs);
            let p = projected(j);
            let pf = projected_fields(fs);
            assert(p == JsonView::Object(pf));
            assert forall|i: int| 0 <= i < pf.len() implies guest_key(#[trigger] pf[i].0)
                && only_guest_keys(pf[i].1) by {
                assert(guest_key(projected_fields(fs)[i].0));
            }
            assert(p is Object);
            assert forall|i: int| 0 <= i < p->Object_0.len() implies guest_key(
                #[trigger] p->Object_0[i].0,
            ) && only_guest_keys(p->Object_0[i].1) by {
                assert(p->Object_0[i] == pf[i]);
            }
            assert(only_guest_keys(p));
        },
        _ => {},
    }
}

} // verus!
