//! Strict literal loopback origin. A request's `Host` must name the bound
//! listener exactly and, where required, its `Origin` must be that listener's
//! `http://` URL; forwarding headers are never consulted.
//!
//! Header values reach this module as text: `None` stands for a value that is
//! not visible ASCII and so has no text form.
use vstd::prelude::*;
use vstd::string::{StrSliceExecFns, StringExecFns};

verus! {

/// The scheme prefix of every gateway URL.
pub open spec fn http_prefix() -> Seq<char> {
    seq!['h', 't', 't', 'p', ':', '/', '/']
}

/// The one text value of a header, if it occurs exactly once and has a text
/// form.
pub open spec fn single_value(values: Seq<Option<String>>) -> Option<Seq<char>> {
    if values.len() == 1 && values[0] is Some {
        Some(values[0]->0@)
    } else {
        None
    }
}

#[derive(Debug, Clone)]
pub struct Origin {
    authority: String,
    url: String,
}

impl Origin {
    pub closed spec fn authority_view(&self) -> Seq<char> {
        self.authority@
    }

    pub closed spec fn url_view(&self) -> Seq<char> {
        self.url@
    }

    /// The origin of a bound listener. `loopback` and `port` describe its
    /// socket address and `authority` is that address's text
    /// (`127.0.0.1:9000`, `[::1]:9000`).
    pub fn for_listener(loopback: bool, port: u16, authority: &str) -> (r: Result<
        Origin,
        &'static str,
    >)
        ensures
            r is Ok <==> loopback && port != 0,
            r is Err ==> r->Err_0 == "gateway requires a bound loopback listener",
            r matches Ok(o) ==> o.authority_view() == authority@ && o.url_view() == http_prefix()
                + authority@,
    {
        if !loopback || port == 0 {
            return Err("gateway requires a bound loopback listener");
        }
        let prefix = "http://";
        proof {
            reveal_strlit("http://");
        }
        let url = String::from_str(prefix).concat(authority);
        Ok(Origin { authority: String::from_str(authority), url })
    }

    pub fn url(&self) -> (r: &str)
        ensures
            r@ == self.url_view(),
    {
        self.url.as_str()
    }

    pub fn authority(&self) -> (r: &str)
        ensures
            r@ == self.authority_view(),
    {
        self.authority.as_str()
    }

    /// `host` holds every value of the request's `Host` header.
    pub fn host_matches(&self, host: &Vec<Option<String>>) -> (r: bool)
        ensures
            r == (single_value(host@) == Some(self.authority_view())),
    {
        match single(host) {
            Some(v) => string_eq(v, &self.authority),
            None => false,
        }
    }

    /// A request without an `Origin` header passes only where none is
    /// required; otherwise its one value must be this origin's URL.
    pub fn origin_matches(&self, origin: &Vec<Option<String>>, required: bool) -> (r: bool)
        ensures
            origin@.len() == 0 ==> r == !required,
            origin@.len() > 0 ==> r == (single_value(origin@) == Some(self.url_view())),
    {
        if origin.len() == 0 {
            return !required;
        }
        match single(origin) {
            Some(v) => string_eq(v, &self.url),
            None => false,
        }
    }
}

fn string_eq(a: &String, b: &String) -> (r: bool)
    ensures
        r == (a@ == b@),
{
    *a == *b
}

/// The value of a header that occurs once and has a text form.
pub fn single(values: &Vec<Option<String>>) -> (r: Option<&String>)
    ensures
        match single_value(values@) {
            Some(v) => r matches Some(s) && s@ == v,
            None => r is None,
        },
{
    if values.len() != 1 {
        return None;
    }
    match &values[0] {
        Some(s) => Some(s),
        None => None,
    }
}

/// Unicode `White_Space`, which `str::trim` removes.
pub open spec fn is_ws(c: char) -> bool {
    let u = c as u32;
    ||| 9 <= u <= 13
    ||| u == 32
    ||| u == 0x85
    ||| u == 0xa0
    ||| u == 0x1680
    ||| 0x2000 <= u <= 0x200a
    ||| u == 0x2028
    ||| u == 0x2029
    ||| u == 0x202f
    ||| u == 0x205f
    ||| u == 0x3000
}

pub open spec fn trim_front(s: Seq<char>) -> Seq<char>
    decreases s.len(),
{
    if s.len() > 0 && is_ws(s[0]) {
        trim_front(s.drop_first())
    } else {
        s
    }
}

pub open spec fn trim_back(s: Seq<char>) -> Seq<char>
    decreases s.len(),
{
    if s.len() > 0 && is_ws(s.last()) {
        trim_back(s.drop_last())
    } else {
        s
    }
}

/// `str::trim`.
pub open spec fn trimmed(s: Seq<char>) -> Seq<char> {
    trim_back(trim_front(s))
}

/// Where `c` first occurs in `s`, or `s.len()`.
pub open spec fn first_index(s: Seq<char>, c: char) -> int
    decreases s.len(),
{
    if s.len() == 0 {
        0
    } else if s[0] == c {
        0
    } else {
        1 + first_index(s.drop_first(), c)
    }
}

/// `s` split at every `;`.
pub open spec fn pieces(s: Seq<char>) -> Seq<Seq<char>>
    decreases s.len(),
{
    let i = first_index(s, ';');
    if 0 <= i < s.len() {
        seq![s.take(i)] + pieces(s.skip(i + 1))
    } else {
        seq![s]
    }
}

/// Every cookie item of the given header texts, in order.
pub open spec fn all_items(texts: Seq<Seq<char>>) -> Seq<Seq<char>>
    decreases texts.len(),
{
    if texts.len() == 0 {
        Seq::empty()
    } else {
        all_items(texts.drop_last()) + pieces(texts.last())
    }
}

/// A cookie item names a value: its trimmed text holds `=`.
pub open spec fn item_ok(it: Seq<char>) -> bool {
    first_index(trimmed(it), '=') < trimmed(it).len()
}

pub open spec fn item_key(it: Seq<char>) -> Seq<char> {
    trimmed(it).take(first_index(trimmed(it), '='))
}

pub open spec fn item_value(it: Seq<char>) -> Seq<char> {
    trimmed(it).skip(first_index(trimmed(it), '=') + 1)
}

/// The items whose key is `name`, in order.
pub open spec fn named(items: Seq<Seq<char>>, name: Seq<char>) -> Seq<Seq<char>>
    decreases items.len(),
{
    if items.len() == 0 {
        Seq::empty()
    } else if item_key(items.last()) == name {
        named(items.drop_last(), name).push(items.last())
    } else {
        named(items.drop_last(), name)
    }
}

pub open spec fn header_texts(headers: Seq<Option<String>>) -> Seq<Seq<char>> {
    headers.map_values(|h: Option<String>|
        match h {
            Some(t) => t@,
            None => Seq::empty(),
        })
}

/// The value of cookie `name`: every header must have a text form, every
/// item must name a value, and exactly one item may carry the name.
pub open spec fn cookie_value(headers: Seq<Option<String>>, name: Seq<char>) -> Option<Seq<char>> {
    let items = all_items(header_texts(headers));
    if exists|k: int| 0 <= k < headers.len() && (#[trigger] headers[k]) is None {
        None
    } else if exists|k: int| 0 <= k < items.len() && !item_ok(#[trigger] items[k]) {
        None
    } else if named(items, name).len() == 1 {
        Some(item_value(named(items, name)[0]))
    } else {
        None
    }
}

proof fn lemma_all_items_concat(a: Seq<Seq<char>>, b: Seq<Seq<char>>)
    ensures
        all_items(a + b) == all_items(a) + all_items(b),
    decreases b.len(),
{
    if b.len() == 0 {
        assert(a + b =~= a);
        assert(all_items(a) + all_items(b) =~= all_items(a));
    } else {
        lemma_all_items_concat(a, b.drop_last());
        assert((a + b).drop_last() =~= a + b.drop_last());
        assert((a + b).last() == b.last());
        assert(all_items(a + b) =~= all_items(a) + all_items(b));
    }
}

proof fn lemma_named_concat(a: Seq<Seq<char>>, b: Seq<Seq<char>>, name: Seq<char>)
    ensures
        named(a + b, name) == named(a, name) + named(b, name),
    decreases b.len(),
{
    if b.len() == 0 {
        assert(a + b =~= a);
        assert(named(a, name) + named(b, name) =~= named(a, name));
    } else {
        lemma_named_concat(a, b.drop_last(), name);
        assert((a + b).drop_last() =~= a + b.drop_last());
        assert((a + b).last() == b.last());
        assert(named(a + b, name) =~= named(a, name) + named(b, name));
    }
}

/// No `c` in `s[from..k]`, and `k` ends the range or holds `c`.
proof fn lemma_first_index(s: Seq<char>, from: int, to: int, k: int, c: char)
    requires
        0 <= from <= k <= to <= s.len(),
        forall|m: int| from <= m < k ==> s[m] != c,
        k == to || s[k] == c,
    ensures
        first_index(s.subrange(from, to), c) == k - from,
    decreases k - from,
{
    let sub = s.subrange(from, to);
    if from < k {
        assert(sub[0] == s[from]);
        assert(sub.drop_first() =~= s.subrange(from + 1, to));
        lemma_first_index(s, from + 1, to, k, c);
    } else if k < to {
        assert(sub[0] == s[k]);
    }
}

proof fn lemma_pieces_step(s: Seq<char>, start: int, j: int)
    requires
        0 <= start <= j <= s.len(),
        forall|m: int| start <= m < j ==> s[m] != ';',
        j == s.len() || s[j] == ';',
    ensures
        pieces(s.skip(start)) == if j < s.len() {
            seq![s.subrange(start, j)] + pieces(s.skip(j + 1))
        } else {
            seq![s.skip(start)]
        },
{
    let t = s.skip(start);
    assert(t =~= s.subrange(start, s.len() as int));
    lemma_first_index(s, start, s.len() as int, j, ';');
    if j < s.len() {
        assert(t.take(j - start) =~= s.subrange(start, j));
        assert(t.skip(j - start + 1) =~= s.skip(j + 1));
    }
}

proof fn lemma_trim_front_step(s: Seq<char>, a: int, to: int)
    requires
        0 <= a < to <= s.len(),
        is_ws(s[a]),
    ensures
        trim_front(s.subrange(a, to)) == trim_front(s.subrange(a + 1, to)),
{
    assert(s.subrange(a, to).drop_first() =~= s.subrange(a + 1, to));
}

proof fn lemma_trim_back_step(s: Seq<char>, a: int, b: int)
    requires
        0 <= a < b <= s.len(),
        is_ws(s[b - 1]),
    ensures
        trim_back(s.subrange(a, b)) == trim_back(s.subrange(a, b - 1)),
{
    assert(s.subrange(a, b).drop_last() =~= s.subrange(a, b - 1));
}

fn char_is_ws(c: char) -> (r: bool)
    ensures
        r == is_ws(c),
{
    let u = c as u32;
    (9 <= u && u <= 13) || u == 32 || u == 0x85 || u == 0xa0 || u == 0x1680 || (0x2000 <= u && u
        <= 0x200a) || u == 0x2028 || u == 0x2029 || u == 0x202f || u == 0x205f || u == 0x3000
}

/// The bounds of `s[from..to]` with surrounding whitespace removed.
fn trim_bounds(s: &str, from: usize, to: usize) -> (r: (usize, usize))
    requires
        from <= to <= s@.len(),
    ensures
        from <= r.0 <= r.1 <= to,
        s@.subrange(r.0 as int, r.1 as int) == trimmed(s@.subrange(from as int, to as int)),
{
    let mut a = from;
    while a < to && char_is_ws(s.get_char(a))
        invariant
            from <= a <= to <= s@.len(),
            trim_front(s@.subrange(from as int, to as int)) == trim_front(s@.subrange(a as int, to as int)),
        decreases to - a,
    {
        proof {
            lemma_trim_front_step(s@, a as int, to as int);
        }
        a = a + 1;
    }
    proof {
        let t = s@.subrange(a as int, to as int);
        if a < to {
            assert(t[0] == s@[a as int]);
        }
        assert(trim_front(t) == t);
    }
    let mut b = to;
    while b > a && char_is_ws(s.get_char(b - 1))
        invariant
            from <= a <= b <= to <= s@.len(),
            trim_back(s@.subrange(a as int, to as int)) == trim_back(s@.subrange(a as int, b as int)),
        decreases b - a,
    {
        proof {
            lemma_trim_back_step(s@, a as int, b as int);
        }
        b = b - 1;
    }
    proof {
        let t = s@.subrange(a as int, b as int);
        if a < b {
            assert(t.last() == s@[b - 1]);
        }
        assert(trim_back(t) == t);
    }
    (a, b)
}

/// Where `c` first occurs in `s[from..to]`, or `to`.
fn find_char(s: &str, from: usize, to: usize, c: char) -> (r: usize)
    requires
        from <= to <= s@.len(),
    ensures
        from <= r <= to,
        forall|m: int| from <= m < r ==> s@[m] != c,
        r == to || s@[r as int] == c,
        first_index(s@.subrange(from as int, to as int), c) == r - from,
{
    let mut k = from;
    while k < to && s.get_char(k) != c
        invariant
            from <= k <= to <= s@.len(),
            forall|m: int| from <= m < k ==> s@[m] != c,
        decreases to - k,
    {
        k = k + 1;
    }
    proof {
        lemma_first_index(s@, from as int, to as int, k as int, c);
    }
    k
}

fn same_str(a: &str, b: &str) -> (r: bool)
    ensures
        r == (a@ == b@),
{
    String::from_str(a) == String::from_str(b)
}

/// The value of cookie `name` among the `Cookie` header values: the name
/// must match a whole key, and a duplicate is ambiguous and refused. Other
/// cookies may share the header.
pub fn cookie(headers: &Vec<Option<String>>, name: &str) -> (r: Option<String>)
    ensures
        match cookie_value(headers@, name@) {
            Some(v) => r matches Some(t) && t@ == v,
            None => r is None,
        },
{
    let ghost texts = header_texts(headers@);
    let ghost full = all_items(texts);
    let mut found: Option<String> = None;
    let ghost mut items: Seq<Seq<char>> = Seq::empty();
    let mut h: usize = 0;
    assert(texts.take(0) =~= Seq::<Seq<char>>::empty());
    while h < headers.len()
        invariant
            h <= headers@.len(),
            texts == header_texts(headers@),
            full == all_items(texts),
            items == all_items(texts.take(h as int)),
            forall|k: int| 0 <= k < h ==> (#[trigger] headers@[k]) is Some,
            forall|k: int| 0 <= k < items.len() ==> item_ok(#[trigger] items[k]),
            named(items, name@).len() <= 1,
            named(items, name@).len() == 1 <==> found is Some,
            found matches Some(v) ==> v@ == item_value(named(items, name@)[0]),
        decreases headers@.len() - h,
    {
        let t: &String = match &headers[h] {
            Some(t) => t,
            None => {
                proof {
                    assert(headers@[h as int] is None);
                }
                return None;
            },
        };
        let s: &str = t.as_str();
        let ghost sv = s@;
        proof {
            assert(texts[h as int] == sv);
            assert(texts.take(h + 1).drop_last() =~= texts.take(h as int));
            assert(texts.take(h + 1).last() == sv);
            lemma_all_items_concat(texts.take(h + 1), texts.skip(h + 1));
            assert(texts.take(h + 1) + texts.skip(h + 1) =~= texts);
        }
        let n = s.unicode_len();
        let mut start: usize = 0;
        let ghost mut seg: Seq<Seq<char>> = Seq::empty();
        let mut more = true;
        assert(sv.skip(0) =~= sv);
        while more
            invariant
                h < headers@.len(),
                texts == header_texts(headers@),
                full == all_items(texts),
                sv == s@,
                n == sv.len(),
                texts[h as int] == sv,
                full == all_items(texts.take(h as int)) + pieces(sv) + all_items(texts.skip(h + 1)),
                start <= n,
                more ==> pieces(sv) == seg + pieces(sv.skip(start as int)),
                !more ==> pieces(sv) == seg,
                items == all_items(texts.take(h as int)) + seg,
                forall|k: int| 0 <= k < items.len() ==> item_ok(#[trigger] items[k]),
                named(items, name@).len() <= 1,
                named(items, name@).len() == 1 <==> found is Some,
                found matches Some(v) ==> v@ == item_value(named(items, name@)[0]),
            decreases n - start + (if more { 1int } else { 0int }),
        {
            let j = find_char(s, start, n, ';');
            proof {
                lemma_pieces_step(sv, start as int, j as int);
            }
            let ghost cur = sv.subrange(start as int, j as int);
            let (a, b) = trim_bounds(s, start, j);
            let e = find_char(s, a, b, '=');
            proof {
                assert(trimmed(cur) == sv.subrange(a as int, b as int));
                assert(sv.subrange(a as int, b as int) =~= s@.subrange(a as int, b as int));
            }
            let ghost rest = if j < n {
                pieces(sv.skip(j + 1))
            } else {
                Seq::<Seq<char>>::empty()
            };
            proof {
                assert(pieces(sv.skip(start as int)) =~= seq![cur] + rest) by {
                    if j == n {
                        assert(sv.skip(start as int) =~= cur);
                    }
                }
                assert(full =~= items + seq![cur] + (rest + all_items(texts.skip(h + 1))));
            }
            if e == b {
                proof {
                    assert(!item_ok(cur));
                    assert(full[items.len() as int] == cur);
                }
                return None;
            }
            let key = s.substring_char(a, e);
            proof {
                assert(item_key(cur) =~= key@);
                assert(item_value(cur) =~= s@.subrange(e + 1, b as int));
                assert(named(items.push(cur), name@) == if item_key(cur) == name@ {
                    named(items, name@).push(cur)
                } else {
                    named(items, name@)
                }) by {
                    assert(items.push(cur).drop_last() =~= items);
                }
            }
            if same_str(key, name) {
                if found.is_some() {
                    proof {
                        lemma_named_concat(items.push(cur), rest + all_items(texts.skip(h + 1)), name@);
                        assert(full =~= items.push(cur) + (rest + all_items(texts.skip(h + 1))));
                        assert(cookie_value(headers@, name@) is None) by {
                            if !(exists|k: int| 0 <= k < headers@.len() && (#[trigger] headers@[k]) is None) {
                                if !(exists|k: int| 0 <= k < full.len() && !item_ok(#[trigger] full[k])) {
                                    assert(named(full, name@).len() >= 2);
                                }
                            }
                        }
                    }
                    return None;
                }
                found = Some(String::from_str(s.substring_char(e + 1, b)));
            }
            proof {
                items = items.push(cur);
                seg = seg.push(cur);
                assert(items =~= all_items(texts.take(h as int)) + seg);
            }
            if j == n {
                more = false;
                proof {
                    assert(seg =~= pieces(sv)) by {
                        assert(pieces(sv) == (seg.drop_last() + seq![cur]));
                    }
                }
            } else {
                start = j + 1;
                proof {
                    assert(pieces(sv) =~= seg + pieces(sv.skip(start as int)));
                }
            }
        }
        proof {
            assert(items =~= all_items(texts.take(h + 1)));
        }
        h = h + 1;
    }
    proof {
        assert(texts.take(h as int) =~= texts);
        assert(!(exists|k: int| 0 <= k < headers@.len() && (#[trigger] headers@[k]) is None));
    }
    found
}

} // verus!
