//! What holds of the annotations of a token, whatever its records are.

use crate::json;
use crate::source::{AnalysisSource, Jump, TokenKind};
use crate::split;
use crate::symbols;
use crate::text;
use crate::text_laws;
use vstd::prelude::*;

verus! {

// ---------------------------------------------------------------------------
// Symbols

/// The symbols of records are those of the first of them, then those of the others.
pub proof fn law_symbols_in_order(a: Seq<AnalysisSource>, b: Seq<AnalysisSource>)
    ensures
        symbols::all_syms(a + b) == symbols::all_syms(a) + symbols::all_syms(b),
    decreases b.len(),
{
    if b.len() == 0 {
        assert(a + b =~= a);
        assert(symbols::all_syms(a) + symbols::all_syms(b) =~= symbols::all_syms(a));
    } else {
        law_symbols_in_order(a, b.drop_last());
        assert((a + b).drop_last() =~= a + b.drop_last());
        assert((a + b).last() == b.last());
        assert(symbols::all_syms(a + b) =~= symbols::all_syms(a) + symbols::all_syms(b));
    }
}

/// A record has all its symbols, in their order, and no others.
pub proof fn law_symbols_of_record(source: AnalysisSource)
    ensures
        symbols::all_syms(seq![source]).len() == source.sym@.len(),
        forall|i: int|
            0 <= i < source.sym@.len() ==> #[trigger] symbols::all_syms(seq![source])[i]
                == source.sym@[i]@,
{
    let one = seq![source];
    assert(one.drop_last() =~= Seq::<AnalysisSource>::empty());
    assert(symbols::all_syms(one.drop_last()) =~= Seq::<Seq<char>>::empty());
    assert(symbols::all_syms(one) =~= split::strings(source.sym@));
}

/// Exactly the records that do not opt out take part in cross references, in their order.
pub proof fn law_crossref(sources: Seq<AnalysisSource>)
    ensures
        symbols::crossref(sources) == sources.filter(|s: AnalysisSource| !s.no_crossref),
    decreases sources.len(),
{
    reveal(Seq::filter);
    if sources.len() > 0 {
        law_crossref(sources.drop_last());
    }
}

// ---------------------------------------------------------------------------
// The number of the menu

/// A word whose records take part in cross references carries a number that reads as the index of
/// its menu; another word carries none.
pub proof fn law_carried_index(sources: Seq<AnalysisSource>, index: int)
    requires
        index >= 0,
    ensures
        ({
            let syms = split::join(symbols::all_syms(sources), ","@);
            if exists|i: int| 0 <= i < sources.len() && !(#[trigger] sources[i]).no_crossref {
                exists|n: Seq<char>|
                    {
                        &&& #[trigger] text::digits_value(n) == index
                        &&& text::all_digits(n)
                        &&& symbols::data_attributes(sources, index) == "data-symbols=\""@ + syms
                            + "\" data-i=\""@ + n + "\" "@
                    }
            } else {
                symbols::data_attributes(sources, index) == "data-symbols=\""@ + syms + "\" "@
            }
        }),
{
    lemma_crossref_some(sources);
    let n = text::dec(index as nat);
    text_laws::law_decimal_reads_back(index as nat);
    assert(text::digits_value(n) == index);
}

/// Records take part in cross references if one of them does.
pub proof fn lemma_crossref_some(sources: Seq<AnalysisSource>)
    ensures
        symbols::crossref(sources).len() > 0 <==> (exists|i: int|
            0 <= i < sources.len() && !(#[trigger] sources[i]).no_crossref),
    decreases sources.len(),
{
    if sources.len() > 0 {
        let p = sources.drop_last();
        lemma_crossref_some(p);
        let last = sources[sources.len() - 1];
        if exists|i: int| 0 <= i < p.len() && !(#[trigger] p[i]).no_crossref {
            let i = choose|i: int| 0 <= i < p.len() && !(#[trigger] p[i]).no_crossref;
            assert(!sources[i].no_crossref);
        }
        if exists|i: int| 0 <= i < sources.len() && !(#[trigger] sources[i]).no_crossref {
            let i = choose|i: int| 0 <= i < sources.len() && !(#[trigger] sources[i]).no_crossref;
            if i < p.len() {
                assert(!p[i].no_crossref);
            }
        }
    }
}

/// The same records carry different attributes for menus at different places.
pub proof fn law_carried_index_differs(sources: Seq<AnalysisSource>, i: int, j: int)
    requires
        0 <= i,
        0 <= j,
        i != j,
        symbols::crossref(sources).len() > 0,
    ensures
        symbols::data_attributes(sources, i) != symbols::data_attributes(sources, j),
{
    text_laws::law_decimal_differs(i as nat, j as nat);
    let head = "data-symbols=\""@ + split::join(symbols::all_syms(sources), ","@)
        + "\" data-i=\""@;
    let a = text::dec(i as nat);
    let b = text::dec(j as nat);
    let x = head + a + "\" "@;
    let y = head + b + "\" "@;
    if x == y {
        assert(x.len() == head.len() + a.len() + "\" "@.len());
        assert(y.len() == head.len() + b.len() + "\" "@.len());
        assert forall|k: int| 0 <= k < a.len() implies a[k] == b[k] by {
            assert(x[head.len() + k] == a[k]);
            assert(y[head.len() + k] == b[k]);
        }
        assert(a =~= b);
    }
}

// ---------------------------------------------------------------------------
// Menus

/// A menu is two lists. The second has one entry for each record that takes part in cross
/// references, in order: its name, and its symbols with commas between them.
pub proof fn law_menu_searches(
    jumps: Map<Seq<char>, Jump>,
    path: Seq<char>,
    line: int,
    sources: Seq<AnalysisSource>,
)
    ensures
        ({
            let menu = symbols::menu(jumps, path, line, sources);
            let kept = sources.filter(|s: AnalysisSource| !s.no_crossref);
            &&& menu.len() == 2
            &&& menu[1].len() == kept.len()
            &&& forall|i: int|
                0 <= i < kept.len() ==> {
                    let entry = #[trigger] menu[1][i];
                    &&& entry.len() == 2
                    &&& entry[0] == ("pretty"@, kept[i].pretty@)
                    &&& entry[1].0 == "sym"@
                    &&& entry[1].1 == split::join(
                        Seq::new(kept[i].sym@.len(), |j: int| kept[i].sym@[j]@),
                        ","@,
                    )
                }
        }),
{
    law_crossref(sources);
    let menu = symbols::menu(jumps, path, line, sources);
    let kept = sources.filter(|s: AnalysisSource| !s.no_crossref);
    assert forall|i: int| 0 <= i < kept.len() implies {
        let entry = #[trigger] menu[1][i];
        &&& entry.len() == 2
        &&& entry[0] == ("pretty"@, kept[i].pretty@)
        &&& entry[1].0 == "sym"@
        &&& entry[1].1 == split::join(
            Seq::new(kept[i].sym@.len(), |j: int| kept[i].sym@[j]@),
            ","@,
        )
    } by {
        assert(split::strings(kept[i].sym@) =~= Seq::new(
            kept[i].sym@.len(),
            |j: int| kept[i].sym@[j]@,
        ));
    }
}

/// The first list of a menu has one entry for each place that it leads to: the name that the jump
/// there has, and the symbol that it was found by, the last one that leads there.
pub proof fn law_menu_jumps(
    jumps: Map<Seq<char>, Jump>,
    path: Seq<char>,
    line: int,
    sources: Seq<AnalysisSource>,
)
    ensures
        ({
            let menu = symbols::menu(jumps, path, line, sources);
            let syms = symbols::all_syms(sources.filter(|s: AnalysisSource| !s.no_crossref));
            forall|i: int|
                0 <= i < menu[0].len() ==> {
                    let entry = #[trigger] menu[0][i];
                    &&& entry.len() == 2
                    &&& entry[0].0 == "pretty"@
                    &&& entry[1].0 == "sym"@
                    &&& jumps.contains_key(entry[1].1)
                    &&& entry[0].1 == jumps[entry[1].1].pretty@
                    &&& last_to_its_place(jumps, syms, entry[1].1)
                }
        }),
{
    law_crossref(sources);
    let kept = symbols::crossref(sources);
    let syms = symbols::all_syms(kept);
    let slots = symbols::menu_slots(jumps, path, line, syms);
    symbols::law_menu_places(jumps, path, line, syms);
    let menu = symbols::menu(jumps, path, line, sources);
    assert forall|i: int| 0 <= i < menu[0].len() implies {
        let entry = #[trigger] menu[0][i];
        &&& entry.len() == 2
        &&& entry[0].0 == "pretty"@
        &&& entry[1].0 == "sym"@
        &&& jumps.contains_key(entry[1].1)
        &&& entry[0].1 == jumps[entry[1].1].pretty@
        &&& last_to_its_place(jumps, syms, entry[1].1)
    } by {
        let slot = slots[i];
        lemma_slot_is_last(jumps, path, line, syms, i);
    }
}

/// Whether `sym` is among the symbols, and none behind it leads to the same place but itself.
pub open spec fn last_to_its_place(
    jumps: Map<Seq<char>, Jump>,
    syms: Seq<Seq<char>>,
    sym: Seq<char>,
) -> bool {
    exists|k: int|
        {
            &&& 0 <= k < syms.len()
            &&& #[trigger] syms[k] == sym
            &&& forall|j: int|
                k < j < syms.len() && jumps.contains_key(#[trigger] syms[j]) ==> !(
                jumps[syms[j]].path@ == jumps[sym].path@ && jumps[syms[j]].lineno
                    == jumps[sym].lineno)
        }
}

proof fn lemma_slot_is_last(
    jumps: Map<Seq<char>, Jump>,
    path: Seq<char>,
    line: int,
    syms: Seq<Seq<char>>,
    i: int,
)
    requires
        0 <= i < symbols::menu_slots(jumps, path, line, syms).len(),
    ensures
        last_to_its_place(jumps, syms, symbols::menu_slots(jumps, path, line, syms)[i].sym),
    decreases syms.len(),
{
    symbols::law_menu_places(jumps, path, line, syms);
    let after = symbols::menu_slots(jumps, path, line, syms);
    let p = syms.drop_last();
    let before = symbols::menu_slots(jumps, path, line, p);
    symbols::law_menu_places(jumps, path, line, p);
    let last = syms.last();
    let sym = after[i].sym;
    assert(syms[syms.len() - 1] == last);
    if jumps.contains_key(last) {
        symbols::lemma_slot_of(before, jumps[last].path@, jumps[last].lineno);
    }
    if sym == last {
        let k = syms.len() - 1;
        assert(syms[k] == sym);
    } else {
        assert(i < before.len() && after[i] == before[i]);
        lemma_slot_is_last(jumps, path, line, p, i);
        let k = choose|k: int|
            {
                &&& 0 <= k < p.len()
                &&& #[trigger] p[k] == sym
                &&& forall|j: int|
                    k < j < p.len() && jumps.contains_key(#[trigger] p[j]) ==> !(
                    jumps[p[j]].path@ == jumps[sym].path@ && jumps[p[j]].lineno
                        == jumps[sym].lineno)
            };
        assert(syms[k] == sym);
        assert forall|j: int|
            k < j < syms.len() && jumps.contains_key(#[trigger] syms[j]) implies !(
        jumps[syms[j]].path@ == jumps[sym].path@ && jumps[syms[j]].lineno == jumps[sym].lineno) by {
            if j < p.len() {
                assert(p[j] == syms[j]);
            }
        }
    }
}

// ---------------------------------------------------------------------------
// Styles

/// Of a word that the analysis calls a type, a definition, a declaration or an interface
/// definition the style tells so; other syntax words give no style.
pub proof fn law_class_of_word(word: Seq<char>)
    ensures
        word == "type"@ ==> symbols::word_classes(seq![word]) == seq!["syn_type"@],
        word == "def"@ || word == "decl"@ || word == "idl"@ ==> symbols::word_classes(seq![word])
            == seq!["syn_def"@],
        word != "type"@ && word != "def"@ && word != "decl"@ && word != "idl"@
            ==> symbols::word_classes(seq![word]).len() == 0,
{
    reveal_strlit("type");
    reveal_strlit("def");
    reveal_strlit("decl");
    reveal_strlit("idl");
    let one = seq![word];
    assert(one.drop_last() =~= Seq::<Seq<char>>::empty());
    assert(symbols::word_classes(one.drop_last()) =~= Seq::<Seq<char>>::empty());
    assert(symbols::word_classes(one) =~= symbols::classes_of(word));
    if word == "type"@ {
        assert(word.len() == 4);
        assert("def"@.len() == 3 && "idl"@.len() == 3);
        assert("decl"@[0] == 'd');
        assert("type"@[0] == 't');
    }
}

/// The classes of syntax words stand in the order of the words.
pub proof fn law_classes_in_order(a: Seq<Seq<char>>, b: Seq<Seq<char>>)
    ensures
        symbols::word_classes(a + b) == symbols::word_classes(a) + symbols::word_classes(b),
    decreases b.len(),
{
    if b.len() == 0 {
        assert(a + b =~= a);
        assert(symbols::word_classes(a) + symbols::word_classes(b) =~= symbols::word_classes(a));
    } else {
        law_classes_in_order(a, b.drop_last());
        assert((a + b).drop_last() =~= a + b.drop_last());
        assert((a + b).last() == b.last());
        assert(symbols::word_classes(a + b) =~= symbols::word_classes(a) + symbols::word_classes(
            b,
        ));
    }
}

/// The classes of records stand in the order of the records, each record with those of its words.
pub proof fn law_record_classes(a: Seq<AnalysisSource>, source: AnalysisSource)
    ensures
        symbols::source_classes(a.push(source)) == symbols::source_classes(a)
            + symbols::word_classes(Seq::new(source.syntax@.len(), |j: int| source.syntax@[j]@)),
        symbols::source_classes(seq![]).len() == 0,
{
    assert(a.push(source).drop_last() =~= a);
    assert(split::strings(source.syntax@) =~= Seq::new(
        source.syntax@.len(),
        |j: int| source.syntax@[j]@,
    ));
}

/// What the style attributes of each kind of token are.
pub proof fn law_styles(kind: TokenKind, datum: Option<Seq<AnalysisSource>>)
    ensures
        ({
            let style = symbols::style_of(kind, datum);
            &&& kind is StringLiteral ==> style == "class=\"syn_string\" "@
            &&& kind is Comment ==> style == "class=\"syn_comment\" "@
            &&& kind is TagName || kind is TagAttrName || kind is EndTagName ==> style
                == "class=\"syn_tag\" "@
            &&& kind is RegularExpressionLiteral ==> style == "class=\"syn_regex\" "@
            &&& kind is PlainText || kind is Punctuation || kind is Newline ==> style.len() == 0
            &&& kind matches TokenKind::Identifier(Some(own)) ==> style == own@
            &&& kind == TokenKind::Identifier(None) ==> match datum {
                None => style.len() == 0,
                Some(sources) => {
                    let classes = symbols::source_classes(sources);
                    if classes.len() > 0 {
                        style == "class=\""@ + split::join(classes, " "@) + "\" "@
                    } else {
                        style.len() == 0
                    }
                },
            }
        }),
{
    reveal_strlit("");
}

/// The symbol data of a page is written in the one form or the other, as asked for.
pub proof fn law_document_text(document: json::DocumentView)
    ensures
        json::document_text(document, true) == json::pretty_json(document),
        json::document_text(document, false) == json::compact_json(document),
{
}

} // verus!
