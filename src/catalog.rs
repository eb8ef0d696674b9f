use vstd::prelude::*;

use crate::json::{
    array_of, member, number_text_of, parse_json, parsed_json, str_of, u64_of, JsonValue,
};
use crate::text::{decimal, decimal_text, plain_number, plain_number_text, texts};

verus! {

/// The failures the synchronisation pipeline distinguishes.
#[derive(Clone, Copy, Debug, PartialEq, Eq, Structural)]
pub enum CatalogError {
    Auth,
    Transport,
    Parse,
    CrawlTruncated,
    Conflict,
    Filesystem,
    ConfigMissing,
}

/// One catalog entry as crawled. `stars[i]` and `keys[i]` describe the same
/// difficulty variant, in the order the service lists them.
#[derive(Clone, Debug)]
pub struct Beatmap {
    pub id: u64,
    pub title: String,
    pub artist: String,
    pub creator: String,
    pub stars: Vec<String>,
    pub keys: Vec<String>,
    pub mp3_url: String,
    pub card_url: String,
    pub cursor: String,
    pub statu: String,
}

/// The mathematical content of a [`Beatmap`].
pub struct EntryView {
    pub id: u64,
    pub title: Seq<char>,
    pub artist: Seq<char>,
    pub creator: Seq<char>,
    pub stars: Seq<Seq<char>>,
    pub keys: Seq<Seq<char>>,
    pub mp3_url: Seq<char>,
    pub card_url: Seq<char>,
    pub cursor: Seq<char>,
    pub statu: Seq<char>,
}

impl View for Beatmap {
    type V = EntryView;

    open spec fn view(&self) -> EntryView {
        EntryView {
            id: self.id,
            title: self.title@,
            artist: self.artist@,
            creator: self.creator@,
            stars: texts(self.stars@),
            keys: texts(self.keys@),
            mp3_url: self.mp3_url@,
            card_url: self.card_url@,
            cursor: self.cursor@,
            statu: self.statu@,
        }
    }
}

pub open spec fn views(s: Seq<Beatmap>) -> Seq<EntryView> {
    s.map_values(|b: Beatmap| b@)
}

/// Star ratings and key counts pair up one to one, and there is at least one variant.
pub open spec fn variants_paired(e: EntryView) -> bool {
    e.stars.len() == e.keys.len() && e.stars.len() > 0
}

/// The number texts of member `key` of every variant, in order.
pub open spec fn variant_texts(vs: Seq<JsonValue>, key: Seq<char>) -> Option<Seq<Seq<char>>>
    decreases vs.len(),
{
    if vs.len() == 0 {
        Some(Seq::empty())
    } else {
        match (variant_texts(vs.drop_last(), key), number_text_of(member(vs.last(), key))) {
            (Some(p), Some(t)) => Some(p.push(plain_number(t))),
            _ => None,
        }
    }
}

/// The entry an item of a response describes; `None` where a required field
/// is missing or of the wrong kind, or the item lists no variant.
pub open spec fn entry_of(item: JsonValue, cursor: Seq<char>) -> Option<EntryView> {
    let card = match member(item, "covers"@) {
        Some(c) => str_of(member(c, "card@2x"@)),
        None => None,
    };
    match (
        str_of(member(item, "title"@)),
        str_of(member(item, "artist"@)),
        str_of(member(item, "creator"@)),
        card,
        str_of(member(item, "preview_url"@)),
        u64_of(member(item, "id"@)),
        array_of(member(item, "beatmaps"@)),
    ) {
        (Some(title), Some(artist), Some(creator), Some(card), Some(preview), Some(id), Some(vs)) => {
            if vs.len() == 0 {
                None
            } else {
                match (
                    str_of(member(vs[0], "status"@)),
                    variant_texts(vs, "difficulty_rating"@),
                    variant_texts(vs, "cs"@),
                ) {
                    (Some(st), Some(stars), Some(keys)) => Some(
                        EntryView {
                            id,
                            title,
                            artist,
                            creator,
                            stars,
                            keys,
                            mp3_url: "https:"@ + preview,
                            card_url: card,
                            cursor,
                            statu: st,
                        },
                    ),
                    _ => None,
                }
            }
        },
        _ => None,
    }
}

/// The items of a response: the response itself where it is a single entry
/// (it has an `artist`), else its `beatmapsets` array.
pub open spec fn page_items(doc: JsonValue) -> Option<Seq<JsonValue>> {
    if str_of(member(doc, "artist"@)) is Some {
        Some(seq![doc])
    } else {
        array_of(member(doc, "beatmapsets"@))
    }
}

/// The continuation token of a response; empty where there is none.
pub open spec fn page_cursor(doc: JsonValue) -> Seq<char> {
    match str_of(member(doc, "cursor_string"@)) {
        Some(c) => c,
        None => Seq::empty(),
    }
}

pub open spec fn entries_of(items: Seq<JsonValue>, cursor: Seq<char>) -> Option<Seq<EntryView>>
    decreases items.len(),
{
    if items.len() == 0 {
        Some(Seq::empty())
    } else {
        match (entries_of(items.drop_last(), cursor), entry_of(items.last(), cursor)) {
            (Some(p), Some(e)) => Some(p.push(e)),
            _ => None,
        }
    }
}

/// A response's entries in the service's order, and its continuation token.
pub open spec fn page_of(doc: JsonValue) -> Option<(Seq<EntryView>, Seq<char>)> {
    match page_items(doc) {
        Some(items) => match entries_of(items, page_cursor(doc)) {
            Some(es) => Some((es, page_cursor(doc))),
            None => None,
        },
        None => None,
    }
}

/// The page a response text yields: its entries in the service's order, and its token.
pub open spec fn page_of_text(text: Seq<char>) -> Option<(Seq<EntryView>, Seq<char>)> {
    match parsed_json(text) {
        Some(doc) => page_of(doc),
        None => None,
    }
}

proof fn lemma_variant_texts_len(vs: Seq<JsonValue>, key: Seq<char>)
    ensures
        variant_texts(vs, key) matches Some(t) ==> t.len() == vs.len(),
    decreases vs.len(),
{
    if vs.len() > 0 {
        lemma_variant_texts_len(vs.drop_last(), key);
    }
}

/// The number of variants an item lists.
pub open spec fn variant_count(item: JsonValue) -> int {
    match array_of(member(item, "beatmaps"@)) {
        Some(vs) => vs.len() as int,
        None => 0,
    }
}

proof fn lemma_entry_paired(item: JsonValue, cursor: Seq<char>)
    ensures
        entry_of(item, cursor) matches Some(e) ==> variants_paired(e) && e.stars.len() == variant_count(item),
{
    match array_of(member(item, "beatmaps"@)) {
        Some(vs) => {
            lemma_variant_texts_len(vs, "difficulty_rating"@);
            lemma_variant_texts_len(vs, "cs"@);
        },
        None => {},
    }
}

proof fn lemma_entries_paired(items: Seq<JsonValue>, cursor: Seq<char>)
    ensures
        entries_of(items, cursor) matches Some(es) ==> (es.len() == items.len() && forall|i: int|
            0 <= i < es.len() ==> entry_of(items[i], cursor) == Some(#[trigger] es[i])),
    decreases items.len(),
{
    if items.len() > 0 {
        lemma_entries_paired(items.drop_last(), cursor);
        if let Some(es) = entries_of(items, cursor) {
            let p = entries_of(items.drop_last(), cursor)->0;
            assert forall|i: int| 0 <= i < es.len() implies entry_of(items[i], cursor) == Some(#[trigger] es[i]) by {
                if i < es.len() - 1 {
                    assert(es[i] == p[i]);
                    assert(items[i] == items.drop_last()[i]);
                }
            }
        }
    }
}

/// Every entry of a parsed page comes from the item at the same place and has
/// one star rating and one key count per variant that item lists, at least one.
pub proof fn lemma_page_paired(doc: JsonValue)
    ensures
        page_of(doc) matches Some(p) ==> (page_items(doc) matches Some(items) && p.0.len() == items.len()
            && forall|i: int| 0 <= i < p.0.len() ==> (variants_paired(#[trigger] p.0[i])
                && p.0[i].stars.len() == variant_count(items[i]))),
{
    if let Some(items) = page_items(doc) {
        lemma_entries_paired(items, page_cursor(doc));
        if let Some(p) = page_of(doc) {
            assert forall|i: int| 0 <= i < p.0.len() implies (variants_paired(#[trigger] p.0[i])
                && p.0[i].stars.len() == variant_count(items[i])) by {
                lemma_entry_paired(items[i], page_cursor(doc));
            }
        }
    }
}

/// A response whose `beatmapsets` array is empty and that carries no token
/// yields no entry and an empty token.
pub proof fn lemma_empty_page(doc: JsonValue)
    requires
        str_of(member(doc, "artist"@)) is None,
        array_of(member(doc, "beatmapsets"@)) == Some(Seq::<JsonValue>::empty()),
        str_of(member(doc, "cursor_string"@)) is None,
    ensures
        page_of(doc) == Some((Seq::<EntryView>::empty(), Seq::<char>::empty())),
{
}

/// A response text that parses to a document with an empty `beatmapsets`
/// array and no token yields an empty page with an empty token, in either order.
pub proof fn lemma_empty_response(text: Seq<char>)
    requires
        parsed_json(text) matches Some(doc) && str_of(member(doc, "artist"@)) is None
            && array_of(member(doc, "beatmapsets"@)) == Some(Seq::<JsonValue>::empty())
            && str_of(member(doc, "cursor_string"@)) is None,
    ensures
        page_of_text(text) == Some((Seq::<EntryView>::empty(), Seq::<char>::empty())),
        Seq::<EntryView>::empty().reverse() == Seq::<EntryView>::empty(),
{
    lemma_empty_page(parsed_json(text)->0);
    assert(Seq::<EntryView>::empty().reverse() =~= Seq::<EntryView>::empty());
}

/// Collects the number text of member `key` of every variant.
fn collect_variant_texts(vs: &Vec<JsonValue>, key: &str) -> (r: Option<Vec<String>>)
    ensures
        match r {
            Some(t) => variant_texts(vs@, key@) == Some(texts(t@)),
            None => variant_texts(vs@, key@) is None,
        },
{
    let mut out: Vec<String> = Vec::new();
    let mut i: usize = 0;
    assert(vs@.subrange(0, 0) =~= Seq::<JsonValue>::empty());
    assert(texts(out@) =~= Seq::<Seq<char>>::empty());
    while i < vs.len()
        invariant
            i <= vs@.len(),
            variant_texts(vs@.subrange(0, i as int), key@) == Some(texts(out@)),
        decreases vs@.len() - i,
    {
        let ghost pre = vs@.subrange(0, i as int);
        let ghost before = texts(out@);
        assert(vs@.subrange(0, i + 1).drop_last() =~= pre);
        assert(vs@.subrange(0, i + 1).last() == vs@[i as int]);
        let t = match vs[i].get(key) {
            Some(x) => match x.number_text() {
                Some(t) => t,
                None => {
                    proof { lemma_variant_texts_none_extends(vs@, key@, i as int); }
                    return None;
                },
            },
            None => {
                proof { lemma_variant_texts_none_extends(vs@, key@, i as int); }
                return None;
            },
        };
        let p = plain_number_text(t.as_str());
        out.push(p);
        assert(texts(out@) =~= before.push(plain_number(t@)));
        i = i + 1;
    }
    assert(vs@.subrange(0, vs@.len() as int) =~= vs@);
    Some(out)
}

/// Once the texts of a prefix fail, those of every longer prefix fail too.
proof fn lemma_variant_texts_none_extends(vs: Seq<JsonValue>, key: Seq<char>, i: int)
    requires
        0 <= i < vs.len(),
        number_text_of(member(vs[i], key)) is None,
    ensures
        variant_texts(vs, key) is None,
    decreases vs.len(),
{
    if i < vs.len() - 1 {
        lemma_variant_texts_none_extends(vs.drop_last(), key, i);
    }
}

/// Builds the entry an item of a response describes.
fn parse_entry(item: &JsonValue, cursor: &String) -> (r: Option<Beatmap>)
    ensures
        match r {
            Some(b) => entry_of(*item, cursor@) == Some(b@),
            None => entry_of(*item, cursor@) is None,
        },
{
    let title = match item.get("title") { Some(v) => match v.as_str() { Some(s) => s, None => { return None; } }, None => { return None; } };
    let artist = match item.get("artist") { Some(v) => match v.as_str() { Some(s) => s, None => { return None; } }, None => { return None; } };
    let creator = match item.get("creator") { Some(v) => match v.as_str() { Some(s) => s, None => { return None; } }, None => { return None; } };
    let card = match item.get("covers") {
        Some(c) => match c.get("card@2x") { Some(v) => match v.as_str() { Some(s) => s, None => { return None; } }, None => { return None; } },
        None => { return None; },
    };
    let preview = match item.get("preview_url") { Some(v) => match v.as_str() { Some(s) => s, None => { return None; } }, None => { return None; } };
    let id = match item.get("id") { Some(v) => match v.as_u64() { Some(n) => n, None => { return None; } }, None => { return None; } };
    let vs = match item.get("beatmaps") { Some(v) => match v.as_array() { Some(a) => a, None => { return None; } }, None => { return None; } };
    if vs.len() == 0 {
        return None;
    }
    let status = match vs[0].get("status") { Some(v) => match v.as_str() { Some(s) => s, None => { return None; } }, None => { return None; } };
    let stars = match collect_variant_texts(vs, "difficulty_rating") { Some(t) => t, None => { return None; } };
    let keys = match collect_variant_texts(vs, "cs") { Some(t) => t, None => { return None; } };
    let mut mp3_url = String::from_str("https:");
    mp3_url.append(preview.as_str());
    Some(Beatmap {
        id,
        title: title.clone(),
        artist: artist.clone(),
        creator: creator.clone(),
        stars,
        keys,
        mp3_url,
        card_url: card.clone(),
        cursor: cursor.clone(),
        statu: status.clone(),
    })
}

/// The entries of a response in the service's order, and its continuation
/// token (empty where the response has none). A response that has an `artist`
/// is read as a single entry; any other must hold a `beatmapsets` array. Any
/// entry with a missing field fails the whole page.
pub fn parse_page(doc: &JsonValue) -> (r: Result<(Vec<Beatmap>, String), CatalogError>)
    ensures
        match r {
            Ok((es, c)) => page_of(*doc) == Some((views(es@), c@)),
            Err(e) => e == CatalogError::Parse && page_of(*doc) is None,
        },
{
    let cursor = match doc.get("cursor_string") {
        Some(v) => match v.as_str() {
            Some(s) => s.clone(),
            None => String::new(),
        },
        None => String::new(),
    };
    let single = match doc.get("artist") {
        Some(v) => v.as_str().is_some(),
        None => false,
    };
    let mut out: Vec<Beatmap> = Vec::new();
    if single {
        match parse_entry(doc, &cursor) {
            Some(b) => {
                out.push(b);
                proof {
                    let items = seq![*doc];
                    assert(items.drop_last() =~= Seq::<JsonValue>::empty());
                    assert(items.last() == *doc);
                    assert(page_items(*doc) == Some(items));
                    assert(entries_of(Seq::<JsonValue>::empty(), cursor@) == Some(Seq::<EntryView>::empty()));
                    assert(views(out@) =~= Seq::<EntryView>::empty().push(out@[0]@));
                }
                Ok((out, cursor))
            },
            None => {
                proof {
                    let items = seq![*doc];
                    assert(items.drop_last() =~= Seq::<JsonValue>::empty());
                }
                Err(CatalogError::Parse)
            },
        }
    } else {
        let items = match doc.get("beatmapsets") {
            Some(v) => match v.as_array() {
                Some(a) => a,
                None => { return Err(CatalogError::Parse); },
            },
            None => { return Err(CatalogError::Parse); },
        };
        let mut i: usize = 0;
        assert(items@.subrange(0, 0) =~= Seq::<JsonValue>::empty());
        assert(views(out@) =~= Seq::<EntryView>::empty());
        while i < items.len()
            invariant
                i <= items@.len(),
                page_items(*doc) == Some(items@),
                page_cursor(*doc) == cursor@,
                entries_of(items@.subrange(0, i as int), cursor@) == Some(views(out@)),
            decreases items@.len() - i,
        {
            let ghost pre = items@.subrange(0, i as int);
            let ghost before = views(out@);
            assert(items@.subrange(0, i + 1).drop_last() =~= pre);
            assert(items@.subrange(0, i + 1).last() == items@[i as int]);
            match parse_entry(&items[i], &cursor) {
                Some(b) => {
                    out.push(b);
                    assert(views(out@) =~= before.push(b@));
                },
                None => {
                    proof { lemma_entries_none_extends(items@, cursor@, i as int); }
                    return Err(CatalogError::Parse);
                },
            }
            i = i + 1;
        }
        assert(items@.subrange(0, items@.len() as int) =~= items@);
        Ok((out, cursor))
    }
}

proof fn lemma_entries_none_extends(items: Seq<JsonValue>, cursor: Seq<char>, i: int)
    requires
        0 <= i < items.len(),
        entry_of(items[i], cursor) is None,
    ensures
        entries_of(items, cursor) is None,
    decreases items.len(),
{
    if i < items.len() - 1 {
        lemma_entries_none_extends(items.drop_last(), cursor, i);
    }
}

/// The entries in the opposite order.
pub fn reversed(v: Vec<Beatmap>) -> (r: Vec<Beatmap>)
    ensures
        r@ == v@.reverse(),
        views(r@) == views(v@).reverse(),
{
    let ghost orig = v@;
    let mut rest = v;
    let mut out: Vec<Beatmap> = Vec::new();
    while rest.len() > 0
        invariant
            rest@ == orig.subrange(0, rest@.len() as int),
            out@.len() + rest@.len() == orig.len(),
            forall|j: int| 0 <= j < out@.len() ==> out@[j] == orig[orig.len() - 1 - j],
        decreases rest@.len(),
    {
        let x = rest.pop().unwrap();
        out.push(x);
    }
    assert(out@ =~= orig.reverse());
    assert(views(out@) =~= views(orig).reverse());
    out
}

/// One page of a search: the response's entries with the last of the response
/// first, and its continuation token. The service lists newest first, so a
/// crawl that appends pages in order stores each page oldest first.
pub fn search_page_from_text(text: &str) -> (r: Result<(Vec<Beatmap>, String), CatalogError>)
    ensures
        match r {
            Ok((es, c)) => page_of_text(text@) matches Some(p) && views(es@) == p.0.reverse()
                && c@ == p.1,
            Err(e) => e == CatalogError::Parse && page_of_text(text@) is None,
        },
        r matches Ok((es, c)) ==> forall|i: int|
            0 <= i < es@.len() ==> variants_paired(#[trigger] es@[i]@),
{
    match parse_json(text) {
        Some(doc) => match parse_page(&doc) {
            Ok((es, c)) => {
                proof {
                    lemma_page_paired(doc);
                }
                let ghost es_v = es@;
                let out = reversed(es);
                proof {
                    assert forall|i: int| 0 <= i < out@.len() implies variants_paired(
                        #[trigger] out@[i]@,
                    ) by {
                        let j = es_v.len() - 1 - i;
                        assert(out@[i] == es_v[j]);
                        assert(views(es_v)[j] == es_v[j]@);
                        let p = page_of(doc)->0;
                        assert(p.0 == views(es_v));
                        assert(variants_paired(p.0[j]));
                    }
                }
                Ok((out, c))
            },
            Err(e) => Err(e),
        },
        None => Err(CatalogError::Parse),
    }
}

/// The bearer token a token response carries.
pub open spec fn token_of_text(text: Seq<char>) -> Option<Seq<char>> {
    match parsed_json(text) {
        Some(doc) => str_of(member(doc, "access_token"@)),
        None => None,
    }
}

/// Reads the bearer token from the token endpoint's response; a body that is
/// not JSON or has no `access_token` string is an authentication failure.
pub fn token_from_response(text: &str) -> (r: Result<String, CatalogError>)
    ensures
        match r {
            Ok(t) => token_of_text(text@) == Some(t@),
            Err(e) => e == CatalogError::Auth && token_of_text(text@) is None,
        },
{
    match parse_json(text) {
        Some(doc) => match doc.get("access_token") {
            Some(v) => match v.as_str() {
                Some(s) => Ok(s.clone()),
                None => Err(CatalogError::Auth),
            },
            None => Err(CatalogError::Auth),
        },
        None => Err(CatalogError::Auth),
    }
}

/// Copies a list of texts.
fn copy_texts(v: &Vec<String>) -> (r: Vec<String>)
    ensures
        texts(r@) == texts(v@),
{
    let mut out: Vec<String> = Vec::new();
    let mut i: usize = 0;
    while i < v.len()
        invariant
            i <= v@.len(),
            texts(out@) == texts(v@.subrange(0, i as int)),
        decreases v@.len() - i,
    {
        let ghost before = texts(out@);
        out.push(v[i].clone());
        assert(texts(out@) =~= before.push(v@[i as int]@));
        assert(texts(v@.subrange(0, i + 1)) =~= texts(v@.subrange(0, i as int)).push(v@[i as int]@));
        i = i + 1;
    }
    assert(v@.subrange(0, v@.len() as int) =~= v@);
    out
}

impl Beatmap {
    /// A copy of the entry.
    pub fn duplicate(&self) -> (r: Beatmap)
        ensures
            r@ == self@,
    {
        Beatmap {
            id: self.id,
            title: self.title.clone(),
            artist: self.artist.clone(),
            creator: self.creator.clone(),
            stars: copy_texts(&self.stars),
            keys: copy_texts(&self.keys),
            mp3_url: self.mp3_url.clone(),
            card_url: self.card_url.clone(),
            cursor: self.cursor.clone(),
            statu: self.statu.clone(),
        }
    }
}

/// Adds the entries of one by-id lookup response to those gathered so far, in
/// the response's order. A response that does not parse is skipped: one bad
/// lookup never spoils the others.
pub fn add_lookup_result(found: &mut Vec<Beatmap>, text: &str)
    ensures
        match page_of_text(text@) {
            Some(p) => views(final(found)@) == views(old(found)@) + p.0,
            None => final(found)@ == old(found)@,
        },
{
    match parse_json(text) {
        Some(doc) => match parse_page(&doc) {
            Ok((es, _c)) => {
                let ghost start = views(found@);
                let mut i: usize = 0;
                while i < es.len()
                    invariant
                        i <= es@.len(),
                        views(found@) == start + views(es@.subrange(0, i as int)),
                    decreases es@.len() - i,
                {
                    let b = es[i].duplicate();
                    let ghost before = views(found@);
                    found.push(b);
                    assert(views(found@) =~= before.push(es@[i as int]@));
                    assert(views(es@.subrange(0, i + 1)) =~= views(es@.subrange(0, i as int)).push(es@[i as int]@));
                    i = i + 1;
                }
                assert(es@.subrange(0, es@.len() as int) =~= es@);
            },
            Err(_) => {},
        },
        None => {},
    }
}

/// The address of the token endpoint.
pub fn token_url(base: &str) -> (r: String)
    ensures
        r@ == base@ + "/oauth/token"@,
{
    let mut u = String::from_str(base);
    u.append("/oauth/token");
    u
}

/// The value of the `Authorization` header that carries a token.
pub fn bearer(token: &str) -> (r: String)
    ensures
        r@ == "Bearer "@ + token@,
{
    let mut h = String::from_str("Bearer ");
    h.append(token);
    h
}

/// The search address for one page of one (mode, status, key count) partition.
pub fn search_url(base: &str, mode: &str, status: &str, key: &str, cursor: &str) -> (r: String)
    ensures
        r@ == base@ + "/api/v2/beatmapsets/search?m="@ + mode@ + "&s="@ + status@
            + "&q=key%3D"@ + key@ + "&nsfw=&cursor_string="@ + cursor@,
{
    let mut u = String::from_str(base);
    u.append("/api/v2/beatmapsets/search?m=");
    u.append(mode);
    u.append("&s=");
    u.append(status);
    u.append("&q=key%3D");
    u.append(key);
    u.append("&nsfw=&cursor_string=");
    u.append(cursor);
    u
}

/// The lookup address of one entry.
pub fn lookup_url(base: &str, id: &str) -> (r: String)
    ensures
        r@ == base@ + "/api/v2/beatmapsets/"@ + id@,
{
    let mut u = String::from_str(base);
    u.append("/api/v2/beatmapsets/");
    u.append(id);
    u
}

/// The public page of an entry.
pub fn get_url(base: &str, beatmap: &Beatmap) -> (r: String)
    ensures
        r@ == base@ + "/beatmapsets/"@ + decimal_text(beatmap.id as nat),
{
    let mut u = String::from_str(base);
    u.append("/beatmapsets/");
    let id = decimal(beatmap.id);
    u.append(id.as_str());
    u
}

/// The asset host's address for an entry's package.
pub fn download_url(base: &str, beatmap: &Beatmap) -> (r: String)
    ensures
        r@ == base@ + "/"@ + decimal_text(beatmap.id as nat) + "?n=1"@,
{
    let mut u = String::from_str(base);
    u.append("/");
    let id = decimal(beatmap.id);
    u.append(id.as_str());
    u.append("?n=1");
    u
}

/// The directory an entry's package goes to: `<root>/<status>`.
pub fn asset_dir(root: &str, beatmap: &Beatmap) -> (r: String)
    ensures
        r@ == root@ + "/"@ + beatmap.statu@,
{
    let mut p = String::from_str(root);
    p.append("/");
    p.append(beatmap.statu.as_str());
    p
}

/// The file an entry's package is written to: `<root>/<status>/<id>-<title>.osz`.
pub fn asset_path(root: &str, beatmap: &Beatmap) -> (r: String)
    ensures
        r@ == root@ + "/"@ + beatmap.statu@ + "/"@ + decimal_text(beatmap.id as nat) + "-"@
            + beatmap.title@ + ".osz"@,
{
    let mut p = asset_dir(root, beatmap);
    p.append("/");
    let id = decimal(beatmap.id);
    p.append(id.as_str());
    p.append("-");
    p.append(beatmap.title.as_str());
    p.append(".osz");
    p
}

} // verus!
