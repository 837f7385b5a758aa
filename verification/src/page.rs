//! What a page is made of, in the order in which it is written.

use vstd::prelude::*;

verus! {

/// Lines of HTML with their indentation.
#[derive(Debug, PartialEq, Eq)]
pub enum Markup {
    /// Markup one level deeper.
    Indent(Vec<Markup>),
    /// Markup one after the other.
    List(Vec<Markup>),
    /// One line.
    Line(String),
}

/// What a [`Markup`] holds.
pub enum MarkupView {
    Indent(Seq<MarkupView>),
    List(Seq<MarkupView>),
    Line(Seq<char>),
}

impl View for Markup {
    type V = MarkupView;

    open spec fn view(&self) -> MarkupView
        decreases self,
    {
        match self {
            Markup::Indent(v) => MarkupView::Indent(
                Seq::new(
                    v@.len(),
                    |i: int|
                        if 0 <= i < v@.len() {
                            v@[i].view()
                        } else {
                            arbitrary()
                        },
                ),
            ),
            Markup::List(v) => MarkupView::List(
                Seq::new(
                    v@.len(),
                    |i: int|
                        if 0 <= i < v@.len() {
                            v@[i].view()
                        } else {
                            arbitrary()
                        },
                ),
            ),
            Markup::Line(s) => MarkupView::Line(s@),
        }
    }
}

/// What each markup holds.
pub open spec fn markup_views(v: Seq<Markup>) -> Seq<MarkupView> {
    Seq::new(v.len(), |i: int| v[i]@)
}

/// Markup one level deeper.
pub(crate) fn indent(v: Vec<Markup>) -> (r: Markup)
    ensures
        r@ == MarkupView::Indent(markup_views(v@)),
{
    let ghost views = markup_views(v@);
    let r = Markup::Indent(v);
    proof {
        reveal_with_fuel(<Markup as View>::view, 2);
        assert(r@->Indent_0 =~= views);
    }
    r
}

/// Markup one after the other.
pub(crate) fn list(v: Vec<Markup>) -> (r: Markup)
    ensures
        r@ == MarkupView::List(markup_views(v@)),
{
    let ghost views = markup_views(v@);
    let r = Markup::List(v);
    proof {
        reveal_with_fuel(<Markup as View>::view, 2);
        assert(r@->List_0 =~= views);
    }
    r
}

/// A list of one line.
pub(crate) fn single_line(s: &str) -> (r: Markup)
    ensures
        r@ == MarkupView::List(seq![MarkupView::Line(s@)]),
{
    let mut v: Vec<Markup> = Vec::new();
    v.push(Markup::Line(s.to_owned()));
    proof {
        assert(markup_views(v@) =~= seq![MarkupView::Line(s@)]);
    }
    list(v)
}

/// Adds a line.
pub(crate) fn push_line(v: &mut Vec<Markup>, s: String)
    ensures
        markup_views(final(v)@) == markup_views(old(v)@).push(MarkupView::Line(s@)),
{
    v.push(Markup::Line(s));
    proof {
        assert(markup_views(v@) =~= markup_views(old(v)@).push(MarkupView::Line(s@)));
    }
}

/// Adds markup.
pub(crate) fn push_markup(v: &mut Vec<Markup>, m: Markup)
    ensures
        markup_views(final(v)@) == markup_views(old(v)@).push(m@),
{
    v.push(m);
    proof {
        assert(markup_views(v@) =~= markup_views(old(v)@).push(m@));
    }
}

/// How the header and the footer of a page are written.
#[derive(Debug, PartialEq, Eq)]
pub struct PageOptions {
    pub title: String,
    pub tree_name: String,
    pub include_date: bool,
    /// The revision shown and the header of its commit.
    pub revision: Option<(String, String)>,
    pub extra_content_classes: &'static str,
}

/// What [`PageOptions`] hold.
pub struct PageOptionsView {
    pub title: Seq<char>,
    pub tree_name: Seq<char>,
    pub include_date: bool,
    pub revision: Option<(Seq<char>, Seq<char>)>,
    pub extra_content_classes: Seq<char>,
}

impl View for PageOptions {
    type V = PageOptionsView;

    open spec fn view(&self) -> PageOptionsView {
        PageOptionsView {
            title: self.title@,
            tree_name: self.tree_name@,
            include_date: self.include_date,
            revision: self.revision.deep_view(),
            extra_content_classes: self.extra_content_classes@,
        }
    }
}

/// An entry of the navigation panel.
#[derive(Debug, PartialEq, Eq)]
pub struct PanelItem {
    pub title: String,
    pub link: String,
    /// What is appended to the link, with the current line number in place of `{}`.
    pub update_link_lineno: &'static str,
    pub accel_key: Option<char>,
}

/// What a [`PanelItem`] holds.
pub struct PanelItemView {
    pub title: Seq<char>,
    pub link: Seq<char>,
    pub update_link_lineno: Seq<char>,
    pub accel_key: Option<char>,
}

impl View for PanelItem {
    type V = PanelItemView;

    open spec fn view(&self) -> PanelItemView {
        PanelItemView {
            title: self.title@,
            link: self.link@,
            update_link_lineno: self.update_link_lineno@,
            accel_key: self.accel_key,
        }
    }
}

/// A section of the navigation panel.
#[derive(Debug, PartialEq, Eq)]
pub struct PanelSection {
    pub name: String,
    pub items: Vec<PanelItem>,
}

/// What a [`PanelSection`] holds.
pub struct PanelSectionView {
    pub name: Seq<char>,
    pub items: Seq<PanelItemView>,
}

/// What each panel entry holds.
pub open spec fn item_views(v: Seq<PanelItem>) -> Seq<PanelItemView> {
    Seq::new(v.len(), |i: int| v[i]@)
}

impl View for PanelSection {
    type V = PanelSectionView;

    open spec fn view(&self) -> PanelSectionView {
        PanelSectionView { name: self.name@, items: item_views(self.items@) }
    }
}

/// What each panel section holds.
pub open spec fn section_views(v: Seq<PanelSection>) -> Seq<PanelSectionView> {
    Seq::new(v.len(), |i: int| v[i]@)
}

/// Adds a panel entry.
pub(crate) fn push_item(
    v: &mut Vec<PanelItem>,
    title: &str,
    link: String,
    update_link_lineno: &'static str,
    accel_key: Option<char>,
)
    ensures
        item_views(final(v)@) == item_views(old(v)@).push(
            PanelItemView {
                title: title@,
                link: link@,
                update_link_lineno: update_link_lineno@,
                accel_key,
            },
        ),
{
    let item = PanelItem { title: title.to_owned(), link, update_link_lineno, accel_key };
    let ghost view = item@;
    v.push(item);
    proof {
        assert(item_views(v@) =~= item_views(old(v)@).push(view));
    }
}

/// A part of a page.
#[derive(Debug, PartialEq, Eq)]
pub enum Step {
    /// What comes before the content, by the options of the page.
    Header,
    /// The path of the page's file, each directory with a link.
    Breadcrumbs(String),
    /// The navigation panel.
    Panel(Vec<PanelSection>),
    /// A picture that is found at this address.
    SvgPreview(String),
    /// Lines of HTML, from no indentation on.
    Lines(Markup),
    /// Text as it stands.
    Text(String),
    /// What comes after the content, by the options of the page, for this path.
    Footer(String),
}

/// What a [`Step`] holds.
pub enum StepView {
    Header,
    Breadcrumbs(Seq<char>),
    Panel(Seq<PanelSectionView>),
    SvgPreview(Seq<char>),
    Lines(MarkupView),
    Text(Seq<char>),
    Footer(Seq<char>),
}

impl View for Step {
    type V = StepView;

    open spec fn view(&self) -> StepView {
        match self {
            Step::Header => StepView::Header,
            Step::Breadcrumbs(s) => StepView::Breadcrumbs(s@),
            Step::Panel(v) => StepView::Panel(section_views(v@)),
            Step::SvgPreview(s) => StepView::SvgPreview(s@),
            Step::Lines(m) => StepView::Lines(m@),
            Step::Text(s) => StepView::Text(s@),
            Step::Footer(s) => StepView::Footer(s@),
        }
    }
}

/// What each step holds.
pub open spec fn step_views(v: Seq<Step>) -> Seq<StepView> {
    Seq::new(v.len(), |i: int| v[i]@)
}

/// Adds a step.
pub(crate) fn push_step(v: &mut Vec<Step>, step: Step)
    ensures
        step_views(final(v)@) == step_views(old(v)@).push(step@),
{
    v.push(step);
    proof {
        assert(step_views(v@) =~= step_views(old(v)@).push(step@));
    }
}

/// A page, or as much of one as is written before it fails.
#[derive(Debug, PartialEq, Eq)]
pub struct Page {
    /// Absent where nothing is written by options.
    pub options: Option<PageOptions>,
    pub steps: Vec<Step>,
    /// Why the page ends here, where it is not complete.
    pub error: Option<&'static str>,
}

/// What a [`Page`] holds.
pub struct PageView {
    pub options: Option<PageOptionsView>,
    pub steps: Seq<StepView>,
    pub error: Option<Seq<char>>,
}

impl View for Page {
    type V = PageView;

    open spec fn view(&self) -> PageView {
        PageView {
            options: match self.options {
                Some(o) => Some(o@),
                None => None,
            },
            steps: step_views(self.steps@),
            error: match self.error {
                Some(e) => Some(e@),
                None => None,
            },
        }
    }
}

/// The page of which nothing is written because of `error`.
pub open spec fn failed(error: Seq<char>) -> PageView {
    PageView { options: None, steps: seq![], error: Some(error) }
}

/// A page of which nothing is written.
pub(crate) fn fail(error: &'static str) -> (r: Page)
    ensures
        r@ == failed(error@),
{
    let r = Page { options: None, steps: Vec::new(), error: Some(error) };
    proof {
        assert(r@.steps =~= failed(error@).steps);
    }
    r
}

/// What is configured of a source tree.
#[derive(Debug)]
pub struct TreeConfig {
    /// The address of the Mercurial repository.
    pub hg_root: Option<String>,
    /// The address of the repository on GitHub.
    pub github_repo: Option<String>,
    /// Where the blame repository lies.
    pub git_blame_path: Option<String>,
}

} // verus!
