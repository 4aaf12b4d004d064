//! Embedded, content-identified assets only: a request names an asset of
//! the bundle being served, never a path, so no URL reaches the filesystem.
use crate::drc::{identity_ok, is_identity};
use vstd::prelude::*;
use vstd::string::StringSliceAdditionalSpecFns;

verus! {

/// The embedded assets, each by name with its content type.
pub open spec fn asset_table() -> Seq<(Seq<char>, Seq<char>)> {
    seq![
        ("guest-display.js"@, "text/javascript; charset=utf-8"@),
        ("guest-query-wire.js"@, "text/javascript; charset=utf-8"@),
        ("guest-tools.js"@, "text/javascript; charset=utf-8"@),
        ("guest-layers.js"@, "text/javascript; charset=utf-8"@),
        ("guest-drc.js"@, "text/javascript; charset=utf-8"@),
        ("drc-geometry.js"@, "text/javascript; charset=utf-8"@),
        ("sharing.js"@, "text/javascript; charset=utf-8"@),
        ("guest.js"@, "text/javascript; charset=utf-8"@),
        ("guest.css"@, "text/css; charset=utf-8"@),
        ("display-input.js"@, "text/javascript; charset=utf-8"@),
        ("display-page.js"@, "text/javascript; charset=utf-8"@),
        ("display-test.js"@, "text/javascript; charset=utf-8"@),
        ("image-decode.js"@, "text/javascript; charset=utf-8"@),
        ("fill-editor.js"@, "text/javascript; charset=utf-8"@),
        ("presets.js"@, "text/javascript; charset=utf-8"@),
        ("palette.js"@, "text/javascript; charset=utf-8"@),
        ("index-open.js"@, "text/javascript; charset=utf-8"@),
        ("browse.js"@, "text/javascript; charset=utf-8"@),
        ("launcher.js"@, "text/javascript; charset=utf-8"@),
        ("minimap.js"@, "text/javascript; charset=utf-8"@),
        ("notices.js"@, "text/javascript; charset=utf-8"@),
        ("about.js"@, "text/javascript; charset=utf-8"@),
        ("session-exit.js"@, "text/javascript; charset=utf-8"@),
        ("app.css"@, "text/css; charset=utf-8"@),
        ("protocol.js"@, "text/javascript; charset=utf-8"@),
        ("app.js"@, "text/javascript; charset=utf-8"@),
        ("settings.js"@, "text/javascript; charset=utf-8"@),
        ("defaults.js"@, "text/javascript; charset=utf-8"@),
        ("gestures.js"@, "text/javascript; charset=utf-8"@),
        ("query.js"@, "text/javascript; charset=utf-8"@),
        ("inspect.js"@, "text/javascript; charset=utf-8"@),
        ("measure.js"@, "text/javascript; charset=utf-8"@),
        ("clip.js"@, "text/javascript; charset=utf-8"@),
        ("snapshot.js"@, "text/javascript; charset=utf-8"@),
        ("display-dump.js"@, "text/javascript; charset=utf-8"@),
        ("drc.js"@, "text/javascript; charset=utf-8"@),
        ("drc-build.js"@, "text/javascript; charset=utf-8"@),
        ("review-save-mode.js"@, "text/javascript; charset=utf-8"@),
        ("hangul.js"@, "text/javascript; charset=utf-8"@),
        ("drc-notes.js"@, "text/javascript; charset=utf-8"@),
        ("drc-note-display.js"@, "text/javascript; charset=utf-8"@),
        ("drc-transfer.js"@, "text/javascript; charset=utf-8"@),
        ("drc-waives.js"@, "text/javascript; charset=utf-8"@),
        ("rulers.js"@, "text/javascript; charset=utf-8"@),
        ("drc-groups.js"@, "text/javascript; charset=utf-8"@),
        ("panel-state.js"@, "text/javascript; charset=utf-8"@),
    ]
}

/// The content type of the first asset of `t` named `name`.
pub open spec fn lookup(t: Seq<(Seq<char>, Seq<char>)>, name: Seq<char>) -> Option<Seq<char>>
    decreases t.len(),
{
    if t.len() == 0 {
        None
    } else if t[0].0 == name {
        Some(t[0].1)
    } else {
        lookup(t.drop_first(), name)
    }
}

/// What a request for asset `name` of bundle `bundle` is served, while
/// `current` is the bundle: the asset's content type, or nothing (not found)
/// for another bundle or a name the table does not hold.
pub open spec fn served(bundle: Seq<char>, current: Seq<char>, name: Seq<char>) -> Option<Seq<char>> {
    if bundle == current {
        lookup(asset_table(), name)
    } else {
        None
    }
}

proof fn lemma_lookup_found(t: Seq<(Seq<char>, Seq<char>)>, name: Seq<char>)
    ensures
        lookup(t, name) matches Some(ty) ==> exists|i: int| 0 <= i < t.len() && (#[trigger] t[i]) == (name, ty),
    decreases t.len(),
{
    if t.len() > 0 && t[0].0 != name {
        lemma_lookup_found(t.drop_first(), name);
        if let Some(ty) = lookup(t, name) {
            let i = choose|i: int| 0 <= i < t.drop_first().len() && (#[trigger] t.drop_first()[i]) == (name, ty);
            assert(t[i + 1] == (name, ty));
        }
    } else if t.len() > 0 {
        assert(t[0] == (name, t[0].1));
    }
}

/// Only the embedded assets are ever served, and only for the bundle being
/// served: whatever is answered for a request is the content type the table
/// gives the requested name.
pub proof fn law_only_listed_assets_are_served(bundle: Seq<char>, current: Seq<char>, name: Seq<char>)
    ensures
        served(bundle, current, name) matches Some(ty) ==> bundle == current && exists|i: int|
            0 <= i < asset_table().len() && (#[trigger] asset_table()[i]) == (name, ty),
{
    lemma_lookup_found(asset_table(), name);
}


fn table() -> (r: Vec<(&'static str, &'static str)>)
    ensures
        r@.map_values(|e: (&'static str, &'static str)| (e.0@, e.1@)) == asset_table(),
{
    let r = vec![
        ("guest-display.js", "text/javascript; charset=utf-8"),
        ("guest-query-wire.js", "text/javascript; charset=utf-8"),
        ("guest-tools.js", "text/javascript; charset=utf-8"),
        ("guest-layers.js", "text/javascript; charset=utf-8"),
        ("guest-drc.js", "text/javascript; charset=utf-8"),
        ("drc-geometry.js", "text/javascript; charset=utf-8"),
        ("sharing.js", "text/javascript; charset=utf-8"),
        ("guest.js", "text/javascript; charset=utf-8"),
        ("guest.css", "text/css; charset=utf-8"),
        ("display-input.js", "text/javascript; charset=utf-8"),
        ("display-page.js", "text/javascript; charset=utf-8"),
        ("display-test.js", "text/javascript; charset=utf-8"),
        ("image-decode.js", "text/javascript; charset=utf-8"),
        ("fill-editor.js", "text/javascript; charset=utf-8"),
        ("presets.js", "text/javascript; charset=utf-8"),
        ("palette.js", "text/javascript; charset=utf-8"),
        ("index-open.js", "text/javascript; charset=utf-8"),
        ("browse.js", "text/javascript; charset=utf-8"),
        ("launcher.js", "text/javascript; charset=utf-8"),
        ("minimap.js", "text/javascript; charset=utf-8"),
        ("notices.js", "text/javascript; charset=utf-8"),
        ("about.js", "text/javascript; charset=utf-8"),
        ("session-exit.js", "text/javascript; charset=utf-8"),
        ("app.css", "text/css; charset=utf-8"),
        ("protocol.js", "text/javascript; charset=utf-8"),
        ("app.js", "text/javascript; charset=utf-8"),
        ("settings.js", "text/javascript; charset=utf-8"),
        ("defaults.js", "text/javascript; charset=utf-8"),
        ("gestures.js", "text/javascript; charset=utf-8"),
        ("query.js", "text/javascript; charset=utf-8"),
        ("inspect.js", "text/javascript; charset=utf-8"),
        ("measure.js", "text/javascript; charset=utf-8"),
        ("clip.js", "text/javascript; charset=utf-8"),
        ("snapshot.js", "text/javascript; charset=utf-8"),
        ("display-dump.js", "text/javascript; charset=utf-8"),
        ("drc.js", "text/javascript; charset=utf-8"),
        ("drc-build.js", "text/javascript; charset=utf-8"),
        ("review-save-mode.js", "text/javascript; charset=utf-8"),
        ("hangul.js", "text/javascript; charset=utf-8"),
        ("drc-notes.js", "text/javascript; charset=utf-8"),
        ("drc-note-display.js", "text/javascript; charset=utf-8"),
        ("drc-transfer.js", "text/javascript; charset=utf-8"),
        ("drc-waives.js", "text/javascript; charset=utf-8"),
        ("rulers.js", "text/javascript; charset=utf-8"),
        ("drc-groups.js", "text/javascript; charset=utf-8"),
        ("panel-state.js", "text/javascript; charset=utf-8"),
    ];
    assert(r@.map_values(|e: (&'static str, &'static str)| (e.0@, e.1@)) =~= asset_table());
    r
}

fn same_text(a: &str, b: &str) -> (r: bool)
    ensures
        r == (a@ == b@),
{
    String::from_str(a) == String::from_str(b)
}

/// The content type of asset `name` of bundle `bundle` while `current` is
/// the bundle served; `None` is answered not found.
pub fn asset(bundle: &str, current: &str, name: &str) -> (r: Option<&'static str>)
    ensures
        match r {
            Some(t) => served(bundle@, current@, name@) == Some(t@),
            None => served(bundle@, current@, name@) is None,
        },
{
    if !same_text(bundle, current) {
        return None;
    }
    let t = table();
    let ghost tv = t@.map_values(|e: (&'static str, &'static str)| (e.0@, e.1@));
    assert(tv.skip(0) =~= tv);
    let mut k: usize = 0;
    while k < t.len()
        invariant
            k <= t@.len(),
            tv == t@.map_values(|e: (&'static str, &'static str)| (e.0@, e.1@)),
            lookup(tv, name@) == lookup(tv.skip(k as int), name@),
            tv == asset_table(),
            bundle@ == current@,
        decreases t@.len() - k,
    {
        assert(tv.skip(k as int)[0] == tv[k as int]);
        assert(tv[k as int] == (t@[k as int].0@, t@[k as int].1@));
        if same_text(t[k].0, name) {
            assert(lookup(tv.skip(k as int), name@) == Some(tv[k as int].1));
            return Some(t[k].1);
        }
        assert(tv.skip(k as int).drop_first() =~= tv.skip(k + 1));
        k = k + 1;
    }
    None
}

/// Whether the guest page of share `id` is served: only while sharing is
/// on, and only for an identity of 64 lower-case hex digits; anything else
/// is answered not found.
pub fn guest_page(sharing: bool, id: &str) -> (r: bool)
    ensures
        r == (sharing && is_identity(id.spec_bytes())),
{
    sharing && identity_ok(id)
}

} // verus!
