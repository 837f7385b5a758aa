//! What the analysis records of one token contribute to its rendering: the symbols to highlight,
//! the menu of jumps and searches, and the style.

use crate::json;
use crate::json::JsonRecord;
use crate::source::{AnalysisSource, Jump, JumpTable, TokenKind};
use crate::split;
use crate::split::{join_strings, join_strs};
use crate::text::{decimal, same_text};
use crate::text;
use vstd::prelude::*;

verus! {

// ---------------------------------------------------------------------------
// Symbols

/// The symbols of all records, in order.
pub open spec fn all_syms(sources: Seq<AnalysisSource>) -> Seq<Seq<char>>
    decreases sources.len(),
{
    if sources.len() == 0 {
        seq![]
    } else {
        all_syms(sources.drop_last()) + split::strings(sources.last().sym@)
    }
}

/// The records that take part in cross references.
pub open spec fn crossref(sources: Seq<AnalysisSource>) -> Seq<AnalysisSource>
    decreases sources.len(),
{
    if sources.len() == 0 {
        seq![]
    } else if sources.last().no_crossref {
        crossref(sources.drop_last())
    } else {
        crossref(sources.drop_last()).push(sources.last())
    }
}

/// The symbols of a token for the highlighter, separated by commas.
pub fn symbol_list(sources: &Vec<AnalysisSource>) -> (r: String)
    ensures
        r@ == split::join(all_syms(sources@), ","@),
{
    let mut syms: Vec<&str> = Vec::new();
    let mut i: usize = 0;
    while i < sources.len()
        invariant
            i <= sources@.len(),
            split::strs(syms@) == all_syms(sources@.take(i as int)),
        decreases sources@.len() - i,
    {
        let list = &sources[i].sym;
        let ghost before = syms@;
        let mut j: usize = 0;
        while j < list.len()
            invariant
                j <= list@.len(),
                split::strs(syms@) == split::strs(before) + split::strings(list@).take(j as int),
            decreases list@.len() - j,
        {
            let ghost prior = syms@;
            syms.push(list[j].as_str());
            proof {
                assert(split::strs(syms@) =~= split::strs(prior).push(list@[j as int]@));
                assert(split::strings(list@).take(j + 1) =~= split::strings(list@).take(
                    j as int,
                ).push(list@[j as int]@));
                assert(split::strs(syms@) =~= split::strs(before) + split::strings(list@).take(
                    j + 1,
                ));
            }
            j = j + 1;
        }
        proof {
            assert(split::strings(list@).take(list@.len() as int) =~= split::strings(list@));
            assert(sources@.take(i + 1).drop_last() =~= sources@.take(i as int));
        }
        i = i + 1;
    }
    proof {
        assert(sources@.take(sources@.len() as int) =~= sources@);
    }
    join_strs(&syms, ",")
}

// ---------------------------------------------------------------------------
// Menu

/// A jump that the menu offers: its place, the symbol it came from, and its name.
pub struct MenuSlot {
    pub path: Seq<char>,
    pub lineno: u64,
    pub sym: Seq<char>,
    pub pretty: Seq<char>,
}

/// The first slot for a place, or the number of slots where there is none.
pub open spec fn slot_of(slots: Seq<MenuSlot>, path: Seq<char>, lineno: u64) -> int
    decreases slots.len(),
{
    if slots.len() == 0 {
        0
    } else {
        let i = slot_of(slots.drop_last(), path, lineno);
        if i < slots.len() - 1 {
            i
        } else if slots.last().path == path && slots.last().lineno == lineno {
            slots.len() - 1
        } else {
            slots.len() as int
        }
    }
}

/// The slots once `slot` is put in: it takes the place of one that leads to the same place.
pub open spec fn put_slot(slots: Seq<MenuSlot>, slot: MenuSlot) -> Seq<MenuSlot> {
    let i = slot_of(slots, slot.path, slot.lineno);
    if i < slots.len() {
        slots.update(i, slot)
    } else {
        slots.push(slot)
    }
}

/// The slots once `sym` is seen: a symbol with a jump that leads away from the current line
/// gets one.
pub open spec fn add_sym(
    jumps: Map<Seq<char>, Jump>,
    path: Seq<char>,
    line: int,
    slots: Seq<MenuSlot>,
    sym: Seq<char>,
) -> Seq<MenuSlot> {
    if !jumps.contains_key(sym) {
        slots
    } else {
        let jump = jumps[sym];
        if jump.path@ == path && jump.lineno == line {
            slots
        } else {
            put_slot(
                slots,
                (MenuSlot { path: jump.path@, lineno: jump.lineno, sym: sym, pretty: jump.pretty@ }),
            )
        }
    }
}

/// The jumps of a menu, for these symbols in order.
pub open spec fn menu_slots(
    jumps: Map<Seq<char>, Jump>,
    path: Seq<char>,
    line: int,
    syms: Seq<Seq<char>>,
) -> Seq<MenuSlot>
    decreases syms.len(),
{
    if syms.len() == 0 {
        seq![]
    } else {
        add_sym(jumps, path, line, menu_slots(jumps, path, line, syms.drop_last()), syms.last())
    }
}

/// The object for a menu entry.
pub open spec fn record(pretty: Seq<char>, sym: Seq<char>) -> json::RecordView {
    seq![("pretty"@, pretty), ("sym"@, sym)]
}

/// The objects for the jumps of a menu.
pub open spec fn slot_records(slots: Seq<MenuSlot>) -> Seq<json::RecordView> {
    Seq::new(slots.len(), |i: int| record(slots[i].pretty, slots[i].sym))
}

/// The objects for the searches of a menu, one for each record.
pub open spec fn item_records(sources: Seq<AnalysisSource>) -> Seq<json::RecordView> {
    Seq::new(
        sources.len(),
        |i: int|
            record(sources[i].pretty@, split::join(split::strings(sources[i].sym@), ","@)),
    )
}

/// The menu of a token: its jumps, then its searches.
pub open spec fn menu(
    jumps: Map<Seq<char>, Jump>,
    path: Seq<char>,
    line: int,
    sources: Seq<AnalysisSource>,
) -> Seq<Seq<json::RecordView>> {
    let kept = crossref(sources);
    seq![slot_records(menu_slots(jumps, path, line, all_syms(kept))), item_records(kept)]
}

/// What the first slot for a place is.
pub proof fn lemma_slot_of(slots: Seq<MenuSlot>, path: Seq<char>, lineno: u64)
    ensures
        0 <= slot_of(slots, path, lineno) <= slots.len(),
        forall|k: int|
            0 <= k < slot_of(slots, path, lineno) ==> (#[trigger] slots[k]).path != path
                || slots[k].lineno != lineno,
        slot_of(slots, path, lineno) < slots.len() ==> slots[slot_of(
            slots,
            path,
            lineno,
        )].path == path && slots[slot_of(slots, path, lineno)].lineno == lineno,
    decreases slots.len(),
{
    if slots.len() > 0 {
        lemma_slot_of(slots.drop_last(), path, lineno);
        let p = slots.drop_last();
        assert forall|k: int| 0 <= k < slots.len() - 1 implies p[k] == slots[k] by {}
        let i = slot_of(slots, path, lineno);
        assert forall|k: int| 0 <= k < i implies (#[trigger] slots[k]).path != path
            || slots[k].lineno != lineno by {
            if k < slots.len() - 1 {
                assert(p[k] == slots[k]);
            }
        }
    }
}

/// A menu leads to no place twice.
pub open spec fn distinct_places(slots: Seq<MenuSlot>) -> bool {
    forall|i: int, j: int|
        0 <= i < j < slots.len() ==> (#[trigger] slots[i]).path != (#[trigger] slots[j]).path
            || slots[i].lineno != slots[j].lineno
}

/// However the symbols come, the menu offers every place at most once, never the line that it
/// is opened on, and only symbols that it was asked for.
pub proof fn law_menu_places(
    jumps: Map<Seq<char>, Jump>,
    path: Seq<char>,
    line: int,
    syms: Seq<Seq<char>>,
)
    ensures
        distinct_places(menu_slots(jumps, path, line, syms)),
        forall|i: int|
            0 <= i < menu_slots(jumps, path, line, syms).len() ==> {
                let slot = #[trigger] menu_slots(jumps, path, line, syms)[i];
                &&& !(slot.path == path && slot.lineno == line)
                &&& syms.contains(slot.sym)
                &&& jumps.contains_key(slot.sym)
                &&& jumps[slot.sym].path@ == slot.path
                &&& jumps[slot.sym].lineno == slot.lineno
                &&& jumps[slot.sym].pretty@ == slot.pretty
            },
    decreases syms.len(),
{
    if syms.len() > 0 {
        let before = menu_slots(jumps, path, line, syms.drop_last());
        law_menu_places(jumps, path, line, syms.drop_last());
        let sym = syms.last();
        let after = menu_slots(jumps, path, line, syms);
        if jumps.contains_key(sym) {
            lemma_slot_of(before, jumps[sym].path@, jumps[sym].lineno);
        }
        assert forall|i: int| 0 <= i < after.len() implies {
            let slot = #[trigger] after[i];
            &&& !(slot.path == path && slot.lineno == line)
            &&& syms.contains(slot.sym)
            &&& jumps.contains_key(slot.sym)
            &&& jumps[slot.sym].path@ == slot.path
            &&& jumps[slot.sym].lineno == slot.lineno
            &&& jumps[slot.sym].pretty@ == slot.pretty
        } by {
            let slot = after[i];
            assert(syms[syms.len() - 1] == sym);
            if i < before.len() && slot == before[i] {
                assert(before[i].sym == slot.sym);
                let p = syms.drop_last();
                let k = choose|k: int| 0 <= k < p.len() && p[k] == slot.sym;
                assert(syms[k] == slot.sym);
            } else {
                assert(slot.sym == sym);
            }
        }
        assert forall|i: int, j: int| 0 <= i < j < after.len() implies (#[trigger] after[i]).path
            != (#[trigger] after[j]).path || after[i].lineno != after[j].lineno by {
            if i < before.len() {
                assert(before[i].path == before[i].path);
            }
            if j < before.len() {
                assert(before[j].path == before[j].path);
            }
        }
    }
}

/// Whether the menu leads to the place.
pub open spec fn leads_to(slots: Seq<MenuSlot>, path: Seq<char>, lineno: u64) -> bool {
    exists|i: int|
        0 <= i < slots.len() && (#[trigger] slots[i]).path == path && slots[i].lineno == lineno
}

/// The menu leads to the place of every symbol whose jump leads away from the current line.
pub proof fn law_menu_complete(
    jumps: Map<Seq<char>, Jump>,
    path: Seq<char>,
    line: int,
    syms: Seq<Seq<char>>,
    sym: Seq<char>,
)
    requires
        syms.contains(sym),
        jumps.contains_key(sym),
        !(jumps[sym].path@ == path && jumps[sym].lineno == line),
    ensures
        leads_to(menu_slots(jumps, path, line, syms), jumps[sym].path@, jumps[sym].lineno),
    decreases syms.len(),
{
    let before = menu_slots(jumps, path, line, syms.drop_last());
    let after = menu_slots(jumps, path, line, syms);
    let target = jumps[sym];
    let last = syms.last();
    if jumps.contains_key(last) {
        lemma_slot_of(before, jumps[last].path@, jumps[last].lineno);
    }
    if last == sym {
        let i = slot_of(before, target.path@, target.lineno);
        assert(after[i].path == target.path@ && after[i].lineno == target.lineno);
    } else {
        let k = choose|k: int| 0 <= k < syms.len() && syms[k] == sym;
        assert(syms.drop_last()[k] == sym);
        law_menu_complete(jumps, path, line, syms.drop_last(), sym);
        let i = choose|i: int|
            0 <= i < before.len() && (#[trigger] before[i]).path == target.path@
                && before[i].lineno == target.lineno;
        assert(after[i].path == target.path@ && after[i].lineno == target.lineno);
    }
}

/// A jump that the menu offers.
struct Slot {
    path: String,
    lineno: u64,
    sym: String,
    pretty: String,
}

impl View for Slot {
    type V = MenuSlot;

    closed spec fn view(&self) -> MenuSlot {
        MenuSlot {
            path: self.path@,
            lineno: self.lineno,
            sym: self.sym@,
            pretty: self.pretty@,
        }
    }
}

spec fn slots_view(slots: Seq<Slot>) -> Seq<MenuSlot> {
    Seq::new(slots.len(), |i: int| slots[i]@)
}

fn find_slot(slots: &Vec<Slot>, path: &str, lineno: u64) -> (r: usize)
    ensures
        r == slot_of(slots_view(slots@), path@, lineno),
        r <= slots@.len(),
{
    let ghost all = slots_view(slots@);
    proof {
        lemma_slot_of(all, path@, lineno);
    }
    let mut i: usize = 0;
    while i < slots.len()
        invariant
            all == slots_view(slots@),
            i <= slots@.len(),
            i <= slot_of(all, path@, lineno) <= all.len(),
            slot_of(all, path@, lineno) < all.len() ==> all[slot_of(all, path@, lineno)].path
                == path@ && all[slot_of(all, path@, lineno)].lineno == lineno,
            forall|k: int|
                0 <= k < slot_of(all, path@, lineno) ==> (#[trigger] all[k]).path != path@
                    || all[k].lineno != lineno,
        decreases slots@.len() - i,
    {
        let slot = &slots[i];
        proof {
            assert(all[i as int] == slot@);
        }
        if slot.lineno == lineno && same_text(slot.path.as_str(), path) {
            return i;
        }
        i = i + 1;
    }
    i
}

fn add_jump(jumps: &JumpTable, path: &str, line: u32, slots: &mut Vec<Slot>, sym: &str)
    ensures
        slots_view(final(slots)@) == add_sym(
            jumps@,
            path@,
            line as int,
            slots_view(old(slots)@),
            sym@,
        ),
{
    let ghost before = slots@;
    if let Some(jump) = jumps.get(sym) {
        if jump.lineno == line as u64 && same_text(jump.path.as_str(), path) {
            return;
        }
        let i = find_slot(slots, jump.path.as_str(), jump.lineno);
        let slot = Slot {
            path: jump.path.clone(),
            lineno: jump.lineno,
            sym: sym.to_owned(),
            pretty: jump.pretty.clone(),
        };
        let ghost new_slot = slot@;
        if i < slots.len() {
            slots.set(i, slot);
            proof {
                assert(slots_view(slots@) =~= slots_view(before).update(i as int, new_slot));
            }
        } else {
            slots.push(slot);
            proof {
                assert(slots_view(slots@) =~= slots_view(before).push(new_slot));
            }
        }
    }
}

/// What the records hold.
pub open spec fn records_view(records: Seq<JsonRecord>) -> Seq<json::RecordView> {
    Seq::new(records.len(), |i: int| records[i].deep_view())
}

fn make_record(pretty: &str, sym: &str) -> (r: JsonRecord)
    ensures
        r.deep_view() == record(pretty@, sym@),
{
    let mut r: JsonRecord = Vec::new();
    r.push(("pretty".to_owned(), pretty.to_owned()));
    r.push(("sym".to_owned(), sym.to_owned()));
    proof {
        assert(r.deep_view() =~= record(pretty@, sym@));
    }
    r
}

/// The records that take part in cross references.
fn keep_crossref<'a>(sources: &'a Vec<AnalysisSource>) -> (r: Vec<&'a AnalysisSource>)
    ensures
        Seq::new(r@.len(), |i: int| *r@[i]) == crossref(sources@),
{
    let mut kept: Vec<&'a AnalysisSource> = Vec::new();
    let mut i: usize = 0;
    while i < sources.len()
        invariant
            i <= sources@.len(),
            Seq::new(kept@.len(), |k: int| *kept@[k]) == crossref(sources@.take(i as int)),
        decreases sources@.len() - i,
    {
        proof {
            assert(sources@.take(i + 1).drop_last() =~= sources@.take(i as int));
        }
        let ghost before = kept@;
        if !sources[i].no_crossref {
            kept.push(&sources[i]);
            proof {
                assert(Seq::new(kept@.len(), |k: int| *kept@[k]) =~= Seq::new(
                    before.len(),
                    |k: int| *before[k],
                ).push(sources@[i as int]));
            }
        }
        i = i + 1;
    }
    proof {
        assert(sources@.take(sources@.len() as int) =~= sources@);
    }
    kept
}

fn jump_records(jumps: &JumpTable, path: &str, line: u32, kept: &Vec<&AnalysisSource>) -> (r: Vec<
    JsonRecord,
>)
    ensures
        records_view(r@) == slot_records(
            menu_slots(
                jumps@,
                path@,
                line as int,
                all_syms(Seq::new(kept@.len(), |i: int| *kept@[i])),
            ),
        ),
{
    let ghost sources = Seq::new(kept@.len(), |i: int| *kept@[i]);
    let mut slots: Vec<Slot> = Vec::new();
    proof {
        assert(slots_view(slots@) =~= Seq::<MenuSlot>::empty());
    }
    let mut i: usize = 0;
    while i < kept.len()
        invariant
            sources == Seq::new(kept@.len(), |k: int| *kept@[k]),
            i <= kept@.len(),
            slots_view(slots@) == menu_slots(
                jumps@,
                path@,
                line as int,
                all_syms(sources.take(i as int)),
            ),
        decreases kept@.len() - i,
    {
        let list = &kept[i].sym;
        let ghost done = all_syms(sources.take(i as int));
        let ghost here = split::strings(list@);
        proof {
            assert(done + here.take(0) =~= done);
        }
        let mut j: usize = 0;
        while j < list.len()
            invariant
                here == split::strings(list@),
                j <= list@.len(),
                slots_view(slots@) == menu_slots(
                    jumps@,
                    path@,
                    line as int,
                    done + here.take(j as int),
                ),
            decreases list@.len() - j,
        {
            add_jump(jumps, path, line, &mut slots, list[j].as_str());
            proof {
                let next = done + here.take(j + 1);
                assert(next.drop_last() =~= done + here.take(j as int));
                assert(next.last() == list@[j as int]@);
            }
            j = j + 1;
        }
        proof {
            assert(here.take(list@.len() as int) =~= here);
            assert(sources.take(i + 1).drop_last() =~= sources.take(i as int));
            assert(sources.take(i + 1).last() == *kept@[i as int]);
        }
        i = i + 1;
    }
    proof {
        assert(sources.take(kept@.len() as int) =~= sources);
    }
    let mut records: Vec<JsonRecord> = Vec::new();
    let mut k: usize = 0;
    while k < slots.len()
        invariant
            k <= slots@.len(),
            records@.len() == k,
            forall|m: int|
                0 <= m < k ==> (#[trigger] records@[m]).deep_view() == record(
                    slots@[m].pretty@,
                    slots@[m].sym@,
                ),
        decreases slots@.len() - k,
    {
        let slot = &slots[k];
        records.push(make_record(slot.pretty.as_str(), slot.sym.as_str()));
        k = k + 1;
    }
    proof {
        assert(records_view(records@) =~= slot_records(slots_view(slots@)));
    }
    records
}

fn search_records(kept: &Vec<&AnalysisSource>) -> (r: Vec<JsonRecord>)
    ensures
        records_view(r@) == item_records(Seq::new(kept@.len(), |i: int| *kept@[i])),
{
    let mut records: Vec<JsonRecord> = Vec::new();
    let mut i: usize = 0;
    while i < kept.len()
        invariant
            i <= kept@.len(),
            records@.len() == i,
            forall|m: int|
                0 <= m < i ==> (#[trigger] records@[m]).deep_view() == record(
                    kept@[m].pretty@,
                    split::join(split::strings(kept@[m].sym@), ","@),
                ),
        decreases kept@.len() - i,
    {
        let syms = join_strings(&kept[i].sym, ",");
        records.push(make_record(kept[i].pretty.as_str(), syms.as_str()));
        i = i + 1;
    }
    proof {
        assert(records_view(records@) =~= item_records(
            Seq::new(kept@.len(), |k: int| *kept@[k]),
        ));
    }
    records
}

/// The menu of a token with these records on line `line` of the file `path`.
pub fn symbol_menu(
    jumps: &JumpTable,
    path: &str,
    line: u32,
    sources: &Vec<AnalysisSource>,
) -> (r: Vec<Vec<JsonRecord>>)
    ensures
        r.deep_view() == menu(jumps@, path@, line as int, sources@),
{
    let kept = keep_crossref(sources);
    let ghost kept_sources = Seq::new(kept@.len(), |i: int| *kept@[i]);
    let jumps_group = jump_records(jumps, path, line, &kept);
    let items_group = search_records(&kept);
    let mut r: Vec<Vec<JsonRecord>> = Vec::new();
    proof {
        assert(jumps_group.deep_view() =~= records_view(jumps_group@));
        assert(items_group.deep_view() =~= records_view(items_group@));
    }
    r.push(jumps_group);
    r.push(items_group);
    proof {
        assert(r.deep_view() =~= menu(jumps@, path@, line as int, sources@));
    }
    r
}

// ---------------------------------------------------------------------------
// Attributes of the span around a token

/// The attributes that carry the symbols of a token, and where it has a menu the index of the
/// menu in the page's symbol data.
pub open spec fn data_attributes(sources: Seq<AnalysisSource>, index: int) -> Seq<char> {
    let syms = "data-symbols=\""@ + split::join(all_syms(sources), ","@);
    if crossref(sources).len() > 0 {
        syms + "\" data-i=\""@ + text::dec(index as nat) + "\" "@
    } else {
        syms + "\" "@
    }
}

/// The classes for one syntax word of a record.
pub open spec fn classes_of(word: Seq<char>) -> Seq<Seq<char>> {
    if word == "type"@ {
        seq!["syn_type"@]
    } else if word == "def"@ || word == "decl"@ || word == "idl"@ {
        seq!["syn_def"@]
    } else {
        seq![]
    }
}

/// The classes for the syntax words of one record.
pub open spec fn word_classes(words: Seq<Seq<char>>) -> Seq<Seq<char>>
    decreases words.len(),
{
    if words.len() == 0 {
        seq![]
    } else {
        word_classes(words.drop_last()) + classes_of(words.last())
    }
}

/// The classes for all records of a token.
pub open spec fn source_classes(sources: Seq<AnalysisSource>) -> Seq<Seq<char>>
    decreases sources.len(),
{
    if sources.len() == 0 {
        seq![]
    } else {
        source_classes(sources.drop_last()) + word_classes(
            split::strings(sources.last().syntax@),
        )
    }
}

/// The class attribute for the records of a word; none where no record gives a class.
pub open spec fn analysis_style(sources: Seq<AnalysisSource>) -> Seq<char> {
    let classes = source_classes(sources);
    if classes.len() > 0 {
        "class=\""@ + split::join(classes, " "@) + "\" "@
    } else {
        ""@
    }
}

/// The style attributes of a token of this kind with these records.
pub open spec fn style_of(kind: TokenKind, datum: Option<Seq<AnalysisSource>>) -> Seq<char> {
    match kind {
        TokenKind::Identifier(None) => match datum {
            Some(sources) => analysis_style(sources),
            None => ""@,
        },
        TokenKind::Identifier(Some(style)) => style@,
        TokenKind::StringLiteral => "class=\"syn_string\" "@,
        TokenKind::Comment => "class=\"syn_comment\" "@,
        TokenKind::TagName => "class=\"syn_tag\" "@,
        TokenKind::TagAttrName => "class=\"syn_tag\" "@,
        TokenKind::EndTagName => "class=\"syn_tag\" "@,
        TokenKind::RegularExpressionLiteral => "class=\"syn_regex\" "@,
        TokenKind::PlainText => ""@,
        TokenKind::Punctuation => ""@,
        TokenKind::Newline => ""@,
    }
}

/// Writes the attributes that carry the symbols of a token; `menu_size` is the number of searches
/// in its menu.
pub(crate) fn write_data_attributes(
    sources: &Vec<AnalysisSource>,
    index: usize,
    menu_size: usize,
) -> (r: String)
    requires
        menu_size == crossref(sources@).len(),
    ensures
        r@ == data_attributes(sources@, index as int),
{
    let syms = symbol_list(sources);
    let mut r = "data-symbols=\"".to_owned();
    r.append(syms.as_str());
    if menu_size > 0 {
        r.append("\" data-i=\"");
        let number = decimal(index as u128);
        r.append(number.as_str());
    }
    r.append("\" ");
    r
}

fn write_classes(sources: &Vec<AnalysisSource>) -> (r: String)
    ensures
        r@ == analysis_style(sources@),
{
    let mut classes: Vec<&str> = Vec::new();
    let mut i: usize = 0;
    while i < sources.len()
        invariant
            i <= sources@.len(),
            split::strs(classes@) == source_classes(sources@.take(i as int)),
        decreases sources@.len() - i,
    {
        let words = &sources[i].syntax;
        let ghost before = split::strs(classes@);
        let ghost all = split::strings(words@);
        let mut j: usize = 0;
        while j < words.len()
            invariant
                all == split::strings(words@),
                j <= words@.len(),
                split::strs(classes@) == before + word_classes(all.take(j as int)),
            decreases words@.len() - j,
        {
            let word = words[j].as_str();
            let ghost prior = classes@;
            if same_text(word, "type") {
                classes.push("syn_type");
                proof {
                    assert(split::strs(classes@) =~= split::strs(prior) + seq!["syn_type"@]);
                }
            } else if same_text(word, "def") || same_text(word, "decl") || same_text(word, "idl") {
                classes.push("syn_def");
                proof {
                    assert(split::strs(classes@) =~= split::strs(prior) + seq!["syn_def"@]);
                }
            } else {
                proof {
                    assert(split::strs(classes@) =~= split::strs(prior) + seq![]);
                }
            }
            proof {
                assert(all.take(j + 1).drop_last() =~= all.take(j as int));
                assert(all.take(j + 1).last() == word@);
                assert(split::strs(classes@) =~= before + word_classes(all.take(j + 1)));
            }
            j = j + 1;
        }
        proof {
            assert(all.take(words@.len() as int) =~= all);
            assert(sources@.take(i + 1).drop_last() =~= sources@.take(i as int));
        }
        i = i + 1;
    }
    proof {
        assert(sources@.take(sources@.len() as int) =~= sources@);
    }
    if classes.len() > 0 {
        let list = join_strs(&classes, " ");
        let mut r = "class=\"".to_owned();
        r.append(list.as_str());
        r.append("\" ");
        r
    } else {
        "".to_owned()
    }
}

/// The style attributes of a token.
pub fn token_style(kind: &TokenKind, datum: Option<&Vec<AnalysisSource>>) -> (r: String)
    ensures
        r@ == style_of(
            *kind,
            match datum {
                Some(d) => Some(d@),
                None => None,
            },
        ),
{
    match kind {
        TokenKind::Identifier(None) => match datum {
            Some(sources) => write_classes(sources),
            None => "".to_owned(),
        },
        TokenKind::Identifier(Some(style)) => style.clone(),
        TokenKind::StringLiteral => "class=\"syn_string\" ".to_owned(),
        TokenKind::Comment => "class=\"syn_comment\" ".to_owned(),
        TokenKind::TagName => "class=\"syn_tag\" ".to_owned(),
        TokenKind::TagAttrName => "class=\"syn_tag\" ".to_owned(),
        TokenKind::EndTagName => "class=\"syn_tag\" ".to_owned(),
        TokenKind::RegularExpressionLiteral => "class=\"syn_regex\" ".to_owned(),
        TokenKind::PlainText => "".to_owned(),
        TokenKind::Punctuation => "".to_owned(),
        TokenKind::Newline => "".to_owned(),
    }
}

} // verus!
