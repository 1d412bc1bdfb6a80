//! The borrowed-vocabulary page: the glossary entries of each quoted
//! crate, grouped under it, each with its quotation highlighted and
//! numbered where it sits in the pinned tree.
use crate::audit::{last_segment, last_segment_of};
use crate::highlight::{highlight_at, highlighted, pieces, HighlightError, Highlighter};
use crate::markdown::{markdown_html, render};
use crate::site::{gloss_anchor, lines_view, GlossLink, Line};
use crate::store::GlossaryItem;
use crate::text::{chars_of, replace_all, replace_in, string_of};
use crate::vendor::{source_id_spec, Source};
use vstd::prelude::*;

verus! {

/// One glossary entry as the page shows it.
#[derive(Debug)]
pub struct GlossEntry {
    pub id: String,
    /// What follows the last `::`: `DeriveInput`.
    pub short: String,
    pub anchor: String,
    pub title: String,
    pub file: String,
    pub lines: String,
    /// The crate's documentation on docs.rs.
    pub upstream: String,
    pub body_html: String,
    pub code: Vec<Line>,
    pub see_also: Vec<GlossLink>,
}

/// The entries quoted from one crate.
#[derive(Debug)]
pub struct GlossGroup {
    pub crate_name: String,
    pub version: String,
    pub anchor: String,
    pub entries: Vec<GlossEntry>,
}

/// Why an entry could not be shown: highlighting its quotation failed.
#[derive(Debug)]
pub struct GlossError {
    pub id: String,
    pub err: HighlightError,
}

/// An id as a URL fragment: every `::` becomes `-`.
pub open spec fn anchor_of(id: Seq<char>) -> Seq<char> {
    replace_all(id, seq![':', ':'], seq!['-'])
}

/// Where docs.rs documents a crate: its name, version, and the name as a
/// Rust path writes it.
pub open spec fn upstream_of(s: Source) -> Seq<char> {
    "https://docs.rs/"@ + s.name@ + "/"@ + s.version@ + "/"@ + replace_all(s.name@, seq!['-'], seq!['_'])
}

/// `g` shows the glossary item quoted from `source`.
pub open spec fn entry_ok(g: GlossEntry, item: GlossaryItem, source: Source, hl: Highlighter) -> bool {
    let e = item.entry;
    &&& g.id@ == e.id@ && g.short@ == last_segment(e.id@) && g.anchor@ == anchor_of(e.id@)
    &&& g.title@ == e.title@ && g.file@ == e.file@ && g.lines@ == e.lines@
    &&& g.upstream@ == upstream_of(source)
    &&& g.body_html@ == markdown_html(e.body@)
    &&& highlighted(hl, item.quoted@, item.range.start as int) matches Ok(v) && lines_view(g.code@) == v
    &&& g.see_also@.len() == e.see_also@.len()
    &&& forall|i: int| 0 <= i < e.see_also@.len() ==> (#[trigger] g.see_also@[i]).id@ == e.see_also@[i]@
        && g.see_also@[i].anchor@ == anchor_of(e.see_also@[i]@)
}

/// The item's quotation can be numbered where it sits.
pub open spec fn item_fits(item: GlossaryItem) -> bool {
    item.range.wf() && item.range.start + pieces(item.quoted@).len() <= u32::MAX + 1
}

fn copy_str(s: &str) -> (r: String)
    ensures
        r@ == s@,
{
    string_of(chars_of(s).as_slice())
}

/// One entry as the page shows it, quoted from `source`.
pub fn gloss_entry(item: &GlossaryItem, source: &Source, hl: &Highlighter) -> (r: Result<GlossEntry, GlossError>)
    requires
        item_fits(*item),
    ensures
        match r {
            Ok(g) => entry_ok(g, *item, *source, *hl),
            Err(e) => e.id@ == item.entry.id@
                && highlighted(*hl, item.quoted@, item.range.start as int) == Err::<Seq<(u32, Seq<char>)>, HighlightError>(e.err),
        },
{
    let e = &item.entry;
    let code = match highlight_at(hl, item.quoted.as_str(), item.range.start) {
        Ok(c) => c,
        Err(err) => return Err(GlossError { id: copy_str(e.id.as_str()), err }),
    };
    let mut see_also: Vec<GlossLink> = Vec::new();
    let mut k: usize = 0;
    while k < e.see_also.len()
        invariant
            k <= e.see_also@.len(),
            see_also@.len() == k,
            forall|i: int| 0 <= i < k ==> (#[trigger] see_also@[i]).id@ == e.see_also@[i]@
                && see_also@[i].anchor@ == anchor_of(e.see_also@[i]@),
        decreases e.see_also@.len() - k,
    {
        see_also.push(GlossLink { id: copy_str(e.see_also[k].as_str()), anchor: gloss_anchor(e.see_also[k].as_str()) });
        k += 1;
    }
    let mut dash: Vec<char> = Vec::new();
    dash.push('-');
    let mut under: Vec<char> = Vec::new();
    under.push('_');
    assert(dash@ =~= seq!['-']);
    assert(under@ =~= seq!['_']);
    let mut up = chars_of("https://docs.rs/");
    let mut t = chars_of(source.name.as_str());
    up.append(&mut t);
    let mut t = chars_of("/");
    up.append(&mut t);
    let mut t = chars_of(source.version.as_str());
    up.append(&mut t);
    let mut t = chars_of("/");
    up.append(&mut t);
    let mut t = replace_in(&chars_of(source.name.as_str()), &dash, &under);
    up.append(&mut t);
    Ok(GlossEntry {
        id: copy_str(e.id.as_str()),
        short: last_segment_of(&e.id),
        anchor: gloss_anchor(e.id.as_str()),
        title: copy_str(e.title.as_str()),
        file: copy_str(e.file.as_str()),
        lines: copy_str(e.lines.as_str()),
        upstream: string_of(up.as_slice()),
        body_html: render(e.body.as_str()),
        code,
        see_also,
    })
}

/// The items quoted from the source with this id, in order.
pub open spec fn items_of(items: Seq<GlossaryItem>, id: Seq<char>) -> Seq<GlossaryItem> {
    items.filter(|i: GlossaryItem| i.source_id@ == id)
}

/// The group of entries quoted from `source`: none when the glossary
/// quotes nothing from it, otherwise one entry per item quoted from it, in
/// order.
pub fn gloss_group(items: &Vec<GlossaryItem>, source: &Source, hl: &Highlighter) -> (r: Result<Option<GlossGroup>, GlossError>)
    requires
        forall|i: int| 0 <= i < items@.len() ==> item_fits(#[trigger] items@[i]),
    ensures
        ({
            let mine = items_of(items@, source_id_spec(source.name@, source.version@));
            match r {
                Ok(None) => mine.len() == 0,
                Ok(Some(g)) => mine.len() > 0 && g.crate_name@ == source.name@ && g.version@ == source.version@
                    && g.anchor@ == anchor_of(source.name@) && g.entries@.len() == mine.len() && forall|k: int|
                    0 <= k < mine.len() ==> entry_ok(#[trigger] g.entries@[k], mine[k], *source, *hl),
                Err(e) => exists|k: int|
                    0 <= k < mine.len() && (#[trigger] mine[k]).entry.id@ == e.id@
                        && highlighted(*hl, mine[k].quoted@, mine[k].range.start as int) == Err::<Seq<(u32, Seq<char>)>, HighlightError>(e.err)
                        && forall|m: int| 0 <= m < k ==> highlighted(*hl, #[trigger] mine[m].quoted@, mine[m].range.start as int) is Ok,
            }
        }),
{
    let id = source.source_id();
    let ghost keep = |i: GlossaryItem| i.source_id@ == id@;
    let mut entries: Vec<GlossEntry> = Vec::new();
    let ghost mine: Seq<GlossaryItem> = Seq::empty();
    let mut k: usize = 0;
    while k < items.len()
        invariant
            k <= items@.len(),
            forall|i: int| 0 <= i < items@.len() ==> item_fits(#[trigger] items@[i]),
            keep == (|i: GlossaryItem| i.source_id@ == id@),
            id@ == source_id_spec(source.name@, source.version@),
            mine == items@.take(k as int).filter(keep),
            entries@.len() == mine.len(),
            forall|j: int| 0 <= j < mine.len() ==> entry_ok(#[trigger] entries@[j], mine[j], *source, *hl),
        decreases items@.len() - k,
    {
        let item = &items[k];
        proof {
            assert(items@.take(k + 1) =~= items@.take(k as int).push(items@[k as int]));
            items@.take(k as int).lemma_filter_push(items@[k as int], keep);
        }
        if crate::text::str_eq(item.source_id.as_str(), id.as_str()) {
            match gloss_entry(item, source, hl) {
                Ok(g) => {
                    entries.push(g);
                    proof {
                        mine = mine.push(*item);
                    }
                },
                Err(e) => {
                    proof {
                        let full = items@.filter(keep);
                        let m2 = mine.push(*item);
                        assert(items@ =~= items@.take(k + 1) + items@.skip(k + 1));
                        Seq::filter_distributes_over_add(items@.take(k + 1), items@.skip(k + 1), keep);
                        assert(items@.take(k + 1).filter(keep) == m2);
                        assert(full[mine.len() as int] == *item);
                        let f2 = |i: GlossaryItem| i.source_id@ == source_id_spec(source.name@, source.version@);
                        assert(f2 =~= keep);
                        assert(items_of(items@, source_id_spec(source.name@, source.version@)) =~= full);
                        assert(full[mine.len() as int].entry.id@ == e.id@);
                        assert forall|m: int| 0 <= m < mine.len() implies highlighted(
                            *hl,
                            #[trigger] full[m].quoted@,
                            full[m].range.start as int,
                        ) is Ok by {
                            assert(m2[m] == mine[m]);
                            assert(entry_ok(entries@[m], mine[m], *source, *hl));
                        }
                    }
                    return Err(e);
                },
            }
        }
        k += 1;
    }
    assert(items@.take(k as int) =~= items@);
    if entries.len() == 0 {
        return Ok(None);
    }
    Ok(Some(GlossGroup {
        crate_name: copy_str(source.name.as_str()),
        version: copy_str(source.version.as_str()),
        anchor: gloss_anchor(source.name.as_str()),
        entries,
    }))
}

} // verus!
