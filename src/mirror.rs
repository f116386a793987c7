use vstd::prelude::*;

use crate::text::{clone_prefix, contains, lemma_views_push, same_strings, str_contains, views};

verus! {

/// One Markdown document of the mirror: the directories above it, its name (the file is
/// `<name>.md`) and its lines.
#[derive(Debug)]
pub struct Document {
    pub dirs: Vec<String>,
    pub name: String,
    pub lines: Vec<String>,
}

/// What a `Document` holds, as a mathematical value.
pub ghost struct DocView {
    pub dirs: Seq<Seq<char>>,
    pub name: Seq<char>,
    pub lines: Seq<Seq<char>>,
}

impl View for Document {
    type V = DocView;

    open spec fn view(&self) -> DocView {
        DocView { dirs: views(self.dirs@), name: self.name@, lines: views(self.lines@) }
    }
}

/// The tree of Markdown documents that mirrors the entries.
#[derive(Debug)]
pub struct Mirror {
    pub documents: Vec<Document>,
}

impl View for Mirror {
    type V = Seq<DocView>;

    open spec fn view(&self) -> Seq<DocView> {
        self.documents@.map_values(|d: Document| d@)
    }
}

/// Where the entries of one tag path go: a document under some directories, and a
/// section of it.
#[derive(Debug)]
pub struct Location {
    pub dirs: Vec<String>,
    pub document: String,
    pub section: String,
}

/// What a `Location` holds, as a mathematical value.
pub ghost struct LocView {
    pub dirs: Seq<Seq<char>>,
    pub document: Seq<char>,
    pub section: Seq<char>,
}

impl View for Location {
    type V = LocView;

    open spec fn view(&self) -> LocView {
        LocView { dirs: views(self.dirs@), document: self.document@, section: self.section@ }
    }
}

/// The location rule: with no ancestors the leaf names both the document and its section;
/// otherwise the immediate parent names the document, the ancestors above it are the
/// directories, root first, and the leaf names the section.
pub open spec fn location_spec(ancestors: Seq<Seq<char>>, leaf: Seq<char>) -> LocView {
    if ancestors.len() == 0 {
        LocView { dirs: Seq::empty(), document: leaf, section: leaf }
    } else {
        LocView { dirs: ancestors.drop_last(), document: ancestors.last(), section: leaf }
    }
}

/// The first line of a document: `# <name>`.
pub open spec fn title_line(name: Seq<char>) -> Seq<char> {
    seq!['#', ' '] + name
}

/// The line that opens a section: `## <section>`.
pub open spec fn heading_line(section: Seq<char>) -> Seq<char> {
    seq!['#', '#', ' '] + section
}

/// The first position at or after `from` at which `lines` holds `target`.
pub open spec fn first_index_from(lines: Seq<Seq<char>>, target: Seq<char>, from: int) -> Option<int>
    decreases lines.len() - from,
{
    if from < 0 || from >= lines.len() {
        None
    } else if lines[from] == target {
        Some(from)
    } else {
        first_index_from(lines, target, from + 1)
    }
}

/// The first position at which `lines` holds `target`.
pub open spec fn first_index(lines: Seq<Seq<char>>, target: Seq<char>) -> Option<int> {
    first_index_from(lines, target, 0)
}

/// The first document at or after `from` that sits under `dirs` and is named `name`.
pub open spec fn first_doc_from(m: Seq<DocView>, dirs: Seq<Seq<char>>, name: Seq<char>, from: int) -> Option<
    int,
>
    decreases m.len() - from,
{
    if from < 0 || from >= m.len() {
        None
    } else if m[from].dirs == dirs && m[from].name == name {
        Some(from)
    } else {
        first_doc_from(m, dirs, name, from + 1)
    }
}

/// The first document that sits under `dirs` and is named `name`.
pub open spec fn first_doc(m: Seq<DocView>, dirs: Seq<Seq<char>>, name: Seq<char>) -> Option<int> {
    first_doc_from(m, dirs, name, 0)
}

/// The lines of a document after `content` was added to `section`: right below the first
/// heading of that section, or else in a new section at the end.
pub open spec fn section_added(lines: Seq<Seq<char>>, section: Seq<char>, content: Seq<char>) -> Seq<
    Seq<char>,
> {
    match first_index(lines, heading_line(section)) {
        Some(j) => lines.insert(j + 1, content),
        None => lines + seq![Seq::<char>::empty(), heading_line(section), Seq::<char>::empty(), content],
    }
}

/// The mirror after `content` was added at `loc`; a missing document is created with its
/// title line first.
pub open spec fn append_spec(m: Seq<DocView>, loc: LocView, content: Seq<char>) -> Seq<DocView> {
    match first_doc(m, loc.dirs, loc.document) {
        Some(i) => m.update(
            i,
            DocView { lines: section_added(m[i].lines, loc.section, content), ..m[i] },
        ),
        None => m.push(
            DocView {
                dirs: loc.dirs,
                name: loc.document,
                lines: section_added(seq![title_line(loc.document)], loc.section, content),
            },
        ),
    }
}

/// A line after replacement: `to` when the line contains `from`, else the line itself.
pub open spec fn replaced_line(line: Seq<char>, from: Seq<char>, to: Seq<char>) -> Seq<char> {
    if contains(line, from) {
        to
    } else {
        line
    }
}

/// The lines of a document with each line that contains `from` rewritten to `to`.
pub open spec fn replaced_lines(lines: Seq<Seq<char>>, from: Seq<char>, to: Seq<char>) -> Seq<
    Seq<char>,
> {
    lines.map_values(|l: Seq<char>| replaced_line(l, from, to))
}

/// The mirror after every line that contains `from`, in every document, was rewritten to `to`.
pub open spec fn replace_spec(m: Seq<DocView>, from: Seq<char>, to: Seq<char>) -> Seq<DocView> {
    m.map_values(|d: DocView| DocView { lines: replaced_lines(d.lines, from, to), ..d })
}

/// The lines of a document without those that contain `text`.
pub open spec fn kept_lines(lines: Seq<Seq<char>>, text: Seq<char>) -> Seq<Seq<char>> {
    lines.filter(|l: Seq<char>| !contains(l, text))
}

/// The mirror after every line that contains `text`, in every document, was removed.
pub open spec fn remove_spec(m: Seq<DocView>, text: Seq<char>) -> Seq<DocView> {
    m.map_values(|d: DocView| DocView { lines: kept_lines(d.lines, text), ..d })
}

/// Some line of some document contains `text`.
pub open spec fn mirror_mentions(m: Seq<DocView>, text: Seq<char>) -> bool {
    exists|i: int, j: int|
        0 <= i < m.len() && 0 <= j < m[i].lines.len() && #[trigger] contains(m[i].lines[j], text)
}

pub proof fn lemma_first_index_from(lines: Seq<Seq<char>>, target: Seq<char>, from: int)
    requires
        0 <= from,
    ensures
        first_index_from(lines, target, from) matches Some(j) ==> from <= j < lines.len()
            && lines[j] == target,
    decreases lines.len() - from,
{
    if from < lines.len() && lines[from] != target {
        lemma_first_index_from(lines, target, from + 1);
    }
}

pub proof fn lemma_first_doc_from(m: Seq<DocView>, dirs: Seq<Seq<char>>, name: Seq<char>, from: int)
    requires
        0 <= from,
    ensures
        first_doc_from(m, dirs, name, from) matches Some(i) ==> from <= i < m.len() && m[i].dirs
            == dirs && m[i].name == name,
    decreases m.len() - from,
{
    if from < m.len() && !(m[from].dirs == dirs && m[from].name == name) {
        lemma_first_doc_from(m, dirs, name, from + 1);
    }
}

/// Some heading of `section` is followed, after blank lines only, by a line equal to
/// `content`: the section holds that content.
pub open spec fn section_holds(lines: Seq<Seq<char>>, section: Seq<char>, content: Seq<char>) -> bool {
    exists|j: int, k: int|
        0 <= j < k < lines.len() && #[trigger] lines[j] == heading_line(section) && #[trigger] lines[k]
            == content && forall|x: int| j < x < k ==> #[trigger] lines[x].len() == 0
}

/// The mirror has a document under `dirs` named `name` whose section `section` holds `content`.
pub open spec fn mirror_holds(
    m: Seq<DocView>,
    dirs: Seq<Seq<char>>,
    name: Seq<char>,
    section: Seq<char>,
    content: Seq<char>,
) -> bool {
    exists|i: int|
        0 <= i < m.len() && #[trigger] m[i].dirs == dirs && m[i].name == name && section_holds(
            m[i].lines,
            section,
            content,
        )
}

pub proof fn lemma_section_added_holds(lines: Seq<Seq<char>>, section: Seq<char>, content: Seq<char>)
    ensures
        section_holds(section_added(lines, section, content), section, content),
{
    let r = section_added(lines, section, content);
    lemma_first_index_from(lines, heading_line(section), 0);
    match first_index(lines, heading_line(section)) {
        Some(j) => {
            assert(r[j] == heading_line(section));
            assert(r[j + 1] == content);
            assert(forall|x: int| j < x < j + 1 ==> #[trigger] r[x].len() == 0);
        },
        None => {
            let n = lines.len() as int;
            assert(r[n + 1] == heading_line(section));
            assert(r[n + 3] == content);
            assert forall|x: int| n + 1 < x < n + 3 implies #[trigger] r[x].len() == 0 by {
                assert(x == n + 2);
            }
        },
    }
}

/// Round trip: after an entry is added under a tag path, the mirror has the document that
/// the location rule names for that path, and its section for the leaf holds the entry.
/// For `a/b/c` that is the document `b` in the directory `a`, with a section `c`.
pub proof fn lemma_append_round_trip(
    m: Seq<DocView>,
    ancestors: Seq<Seq<char>>,
    leaf: Seq<char>,
    content: Seq<char>,
)
    ensures
        ({
            let loc = location_spec(ancestors, leaf);
            mirror_holds(append_spec(m, loc, content), loc.dirs, loc.document, leaf, content)
        }),
{
    let loc = location_spec(ancestors, leaf);
    let r = append_spec(m, loc, content);
    lemma_first_doc_from(m, loc.dirs, loc.document, 0);
    match first_doc(m, loc.dirs, loc.document) {
        Some(i) => {
            lemma_section_added_holds(m[i].lines, loc.section, content);
            assert(r[i].dirs == loc.dirs);
        },
        None => {
            lemma_section_added_holds(seq![title_line(loc.document)], loc.section, content);
            assert(r[m.len() as int].dirs == loc.dirs);
        },
    }
}

/// Replacing by text rewrites exactly the lines that contain the old text, in place, and
/// leaves every other line, and every document's place and name, as it was.
pub proof fn lemma_replace_keeps_unrelated(m: Seq<DocView>, from: Seq<char>, to: Seq<char>)
    ensures
        replace_spec(m, from, to).len() == m.len(),
        forall|i: int|
            0 <= i < m.len() ==> {
                let d = #[trigger] replace_spec(m, from, to)[i];
                &&& d.dirs == m[i].dirs
                &&& d.name == m[i].name
                &&& d.lines.len() == m[i].lines.len()
                &&& forall|j: int|
                    0 <= j < m[i].lines.len() ==> #[trigger] d.lines[j] == if contains(
                        m[i].lines[j],
                        from,
                    ) {
                        to
                    } else {
                        m[i].lines[j]
                    }
            },
{
}

/// Removing by text leaves no line, in any document, that contains the text, and keeps
/// every line that does not; documents keep their place and name.
pub proof fn lemma_remove_clears(m: Seq<DocView>, text: Seq<char>)
    ensures
        remove_spec(m, text).len() == m.len(),
        forall|i: int|
            0 <= i < m.len() ==> {
                let d = #[trigger] remove_spec(m, text)[i];
                &&& d.dirs == m[i].dirs
                &&& d.name == m[i].name
                &&& forall|j: int| 0 <= j < d.lines.len() ==> !contains(#[trigger] d.lines[j], text)
                &&& forall|j: int|
                    0 <= j < m[i].lines.len() && !contains(#[trigger] m[i].lines[j], text)
                        ==> d.lines.contains(m[i].lines[j])
            },
        !mirror_mentions(remove_spec(m, text), text),
{
    broadcast use vstd::seq_lib::group_filter_ensures;

    let r = remove_spec(m, text);
    assert forall|i: int| 0 <= i < m.len() implies {
        let d = #[trigger] r[i];
        &&& forall|j: int| 0 <= j < d.lines.len() ==> !contains(#[trigger] d.lines[j], text)
        &&& forall|j: int|
            0 <= j < m[i].lines.len() && !contains(#[trigger] m[i].lines[j], text)
                ==> d.lines.contains(m[i].lines[j])
    } by {
        let pred = |l: Seq<char>| !contains(l, text);
        let d = r[i];
        assert(d.lines == m[i].lines.filter(pred));
        assert forall|j: int| 0 <= j < d.lines.len() implies !contains(#[trigger] d.lines[j], text) by {
            m[i].lines.lemma_filter_pred(pred, j);
        }
        assert forall|j: int| 0 <= j < m[i].lines.len() && !contains(#[trigger] m[i].lines[j], text)
            implies d.lines.contains(m[i].lines[j]) by {
            m[i].lines.lemma_filter_contains(pred, j);
        }
    }
    if mirror_mentions(r, text) {
        let (a, b) = choose|a: int, b: int|
            0 <= a < r.len() && 0 <= b < r[a].lines.len() && #[trigger] contains(r[a].lines[b], text);
        let d = r[a];
        assert(!contains(d.lines[b], text));
    }
}

/// `# <name>`.
fn title_of(name: &String) -> (r: String)
    ensures
        r@ == title_line(name@),
{
    let mut r = String::from_str("# ");
    r.append(name.as_str());
    proof {
        reveal_strlit("# ");
        assert(r@ =~= title_line(name@));
    }
    r
}

/// `## <section>`.
fn heading_of(section: &String) -> (r: String)
    ensures
        r@ == heading_line(section@),
{
    let mut r = String::from_str("## ");
    r.append(section.as_str());
    proof {
        reveal_strlit("## ");
        assert(r@ =~= heading_line(section@));
    }
    r
}

/// The first position at which `lines` holds `target`.
fn find_line(lines: &Vec<String>, target: &String) -> (r: Option<usize>)
    ensures
        r matches Some(j) ==> first_index(views(lines@), target@) == Some(j as int),
        r is None ==> first_index(views(lines@), target@) is None,
{
    let ghost ls = views(lines@);
    let mut i: usize = 0;
    while i < lines.len()
        invariant
            ls == views(lines@),
            i <= lines@.len(),
            first_index(ls, target@) == first_index_from(ls, target@, i as int),
        decreases lines@.len() - i,
    {
        assert(ls[i as int] == lines@[i as int]@);
        if lines[i] == *target {
            return Some(i);
        }
        i += 1;
    }
    None
}

/// Adds `content` to `section` of a document's lines, as `section_added` says.
fn add_to_section(lines: Vec<String>, section: &String, content: &str) -> (r: Vec<String>)
    ensures
        views(r@) == section_added(views(lines@), section@, content@),
{
    let mut lines = lines;
    let heading = heading_of(section);
    let ghost ls = views(lines@);
    match find_line(&lines, &heading) {
        Some(j) => {
            proof {
                lemma_first_index_from(ls, heading@, 0);
            }
            let c = String::from_str(content);
            let ghost before = lines@;
            let n = lines.len();
            assert(j < n);
            lines.insert(j + 1, c);
            assert(views(lines@) =~= ls.insert(j + 1, content@)) by {
                assert(lines@ == before.insert(j + 1, c));
            }
        },
        None => {
            let e1 = String::new();
            let e2 = String::new();
            let c = String::from_str(content);
            proof {
                lemma_views_push(lines@, e1);
                lemma_views_push(lines@.push(e1), heading);
                lemma_views_push(lines@.push(e1).push(heading), e2);
                lemma_views_push(lines@.push(e1).push(heading).push(e2), c);
            }
            lines.push(e1);
            lines.push(heading);
            lines.push(e2);
            lines.push(c);
            assert(views(lines@) =~= ls + seq![
                Seq::<char>::empty(),
                heading_line(section@),
                Seq::<char>::empty(),
                content@,
            ]);
        },
    }
    lines
}

/// The lines of a document with each line that contains `old_text` rewritten to `new_text`, and
/// whether any line did.
fn replace_in_lines(lines: &Vec<String>, old_text: &str, new_text: &str) -> (r: (Vec<String>, bool))
    ensures
        views(r.0@) == replaced_lines(views(lines@), old_text@, new_text@),
        r.1 == exists|j: int| 0 <= j < lines@.len() && #[trigger] contains(views(lines@)[j], old_text@),
{
    let ghost ls = views(lines@);
    let mut out: Vec<String> = Vec::new();
    let mut found = false;
    let mut i: usize = 0;
    while i < lines.len()
        invariant
            ls == views(lines@),
            i <= lines@.len(),
            views(out@) == replaced_lines(ls.subrange(0, i as int), old_text@, new_text@),
            found == exists|j: int| 0 <= j < i && #[trigger] contains(ls[j], old_text@),
        decreases lines@.len() - i,
    {
        assert(ls[i as int] == lines@[i as int]@);
        let line = if str_contains(lines[i].as_str(), old_text) {
            found = true;
            String::from_str(new_text)
        } else {
            lines[i].clone()
        };
        proof {
            lemma_views_push(out@, line);
            assert(replaced_lines(ls.subrange(0, i + 1), old_text@, new_text@) =~= replaced_lines(
                ls.subrange(0, i as int),
                old_text@,
                new_text@,
            ).push(line@));
        }
        out.push(line);
        i += 1;
    }
    assert(ls.subrange(0, i as int) =~= ls);
    (out, found)
}

/// The lines of a document without those that contain `text`, and whether there were any.
fn remove_from_lines(lines: &Vec<String>, text: &str) -> (r: (Vec<String>, bool))
    ensures
        views(r.0@) == kept_lines(views(lines@), text@),
        r.1 == exists|j: int| 0 <= j < lines@.len() && #[trigger] contains(views(lines@)[j], text@),
{
    let ghost ls = views(lines@);
    let ghost keep = |l: Seq<char>| !contains(l, text@);
    let mut out: Vec<String> = Vec::new();
    let mut found = false;
    let mut i: usize = 0;
    assert(ls.subrange(0, 0) =~= Seq::<Seq<char>>::empty());
    proof {
        reveal(Seq::filter);
    }
    assert(views(out@) =~= kept_lines(ls.subrange(0, 0), text@));
    while i < lines.len()
        invariant
            ls == views(lines@),
            keep == (|l: Seq<char>| !contains(l, text@)),
            i <= lines@.len(),
            views(out@) == kept_lines(ls.subrange(0, i as int), text@),
            found == exists|j: int| 0 <= j < i && #[trigger] contains(ls[j], text@),
        decreases lines@.len() - i,
    {
        assert(ls[i as int] == lines@[i as int]@);
        assert(ls.subrange(0, i + 1) =~= ls.subrange(0, i as int).push(ls[i as int]));
        proof {
            ls.subrange(0, i as int).lemma_filter_push(ls[i as int], keep);
        }
        if str_contains(lines[i].as_str(), text) {
            found = true;
        } else {
            let line = lines[i].clone();
            proof {
                lemma_views_push(out@, line);
            }
            out.push(line);
        }
        i += 1;
    }
    assert(ls.subrange(0, i as int) =~= ls);
    (out, found)
}

impl Document {
    /// A document with no directories, no name and no lines.
    pub fn empty() -> (r: Document)
        ensures
            r@.dirs.len() == 0,
            r@.name.len() == 0,
            r@.lines.len() == 0,
    {
        Document { dirs: Vec::new(), name: String::new(), lines: Vec::new() }
    }
}

/// Derives where the entries of a tag path go, from its ancestors (root first) and leaf.
pub fn location_of(ancestors: &Vec<String>, leaf: &String) -> (r: Location)
    ensures
        r@ == location_spec(views(ancestors@), leaf@),
{
    let n = ancestors.len();
    if n == 0 {
        let r = Location { dirs: Vec::new(), document: leaf.clone(), section: leaf.clone() };
        assert(r@.dirs =~= Seq::<Seq<char>>::empty());
        r
    } else {
        let dirs = clone_prefix(ancestors, n - 1);
        let r = Location { dirs, document: ancestors[n - 1].clone(), section: leaf.clone() };
        assert(views(ancestors@).drop_last() =~= views(ancestors@).subrange(0, n - 1));
        r
    }
}

impl Mirror {
    /// A mirror with no documents.
    pub fn new() -> (r: Mirror)
        ensures
            r@ == Seq::<DocView>::empty(),
    {
        let r = Mirror { documents: Vec::new() };
        assert(r@ =~= Seq::<DocView>::empty());
        r
    }

    /// The first document that sits under `dirs` and is named `name`.
    pub fn find_document(&self, dirs: &Vec<String>, name: &String) -> (r: Option<usize>)
        ensures
            r matches Some(i) ==> first_doc(self@, views(dirs@), name@) == Some(i as int),
            r is None ==> first_doc(self@, views(dirs@), name@) is None,
    {
        let mut i: usize = 0;
        while i < self.documents.len()
            invariant
                i <= self@.len(),
                self@.len() == self.documents@.len(),
                first_doc(self@, views(dirs@), name@) == first_doc_from(
                    self@,
                    views(dirs@),
                    name@,
                    i as int,
                ),
            decreases self@.len() - i,
        {
            let d = &self.documents[i];
            assert(self@[i as int] == d@);
            if same_strings(&d.dirs, dirs) && d.name == *name {
                return Some(i);
            }
            i += 1;
        }
        None
    }

    /// Adds `content` to the section of the document that `loc` names: right below the
    /// section's first heading, or in a new section at the end of the document. A missing
    /// document is created with its title line.
    pub fn append_or_merge_section(&mut self, loc: &Location, content: &str)
        ensures
            final(self)@ == append_spec(old(self)@, loc@, content@),
    {
        match self.find_document(&loc.dirs, &loc.document) {
            Some(i) => {
                proof {
                    lemma_first_doc_from(old(self)@, loc@.dirs, loc@.document, 0);
                }
                let mut doc = Document::empty();
                self.documents.set_and_swap(i, &mut doc);
                let mut lines: Vec<String> = Vec::new();
                std::mem::swap(&mut lines, &mut doc.lines);
                doc.lines = add_to_section(lines, &loc.section, content);
                self.documents.set(i, doc);
                assert(self@ =~= append_spec(old(self)@, loc@, content@));
            },
            None => {
                let title = title_of(&loc.document);
                let mut lines: Vec<String> = Vec::new();
                lines.push(title);
                assert(views(lines@) =~= seq![title_line(loc@.document)]);
                let lines = add_to_section(lines, &loc.section, content);
                let doc = Document {
                    dirs: clone_prefix(&loc.dirs, loc.dirs.len()),
                    name: loc.document.clone(),
                    lines,
                };
                assert(views(loc.dirs@).subrange(0, loc.dirs@.len() as int) =~= views(loc.dirs@));
                self.documents.push(doc);
                assert(self@ =~= append_spec(old(self)@, loc@, content@));
            },
        }
    }

    /// Rewrites every line, in every document, that contains `old_text` to `new_text`, keeping its
    /// place; the other lines stay as they are. Tells whether any line matched.
    pub fn replace_by_text(&mut self, old_text: &str, new_text: &str) -> (r: bool)
        ensures
            final(self)@ == replace_spec(old(self)@, old_text@, new_text@),
            r == mirror_mentions(old(self)@, old_text@),
    {
        let ghost m0 = self@;
        let mut found = false;
        let mut i: usize = 0;
        assert(self@.subrange(0, 0) =~= Seq::<DocView>::empty());
        while i < self.documents.len()
            invariant
                m0 == old(self)@,
                i <= self@.len(),
                self@.len() == m0.len(),
                self@.len() == self.documents@.len(),
                self@.subrange(0, i as int) == replace_spec(m0, old_text@, new_text@).subrange(0, i as int),
                self@.subrange(i as int, m0.len() as int) == m0.subrange(i as int, m0.len() as int),
                found == exists|a: int, b: int|
                    0 <= a < i && 0 <= b < m0[a].lines.len() && #[trigger] contains(
                        m0[a].lines[b],
                        old_text@,
                    ),
            decreases self@.len() - i,
        {
            let ghost prev = self@;
            let ghost orig = self.documents@[i as int];
            let (lines, any) = replace_in_lines(&self.documents[i].lines, old_text, new_text);
            let mut doc = Document::empty();
            self.documents.set_and_swap(i, &mut doc);
            assert(doc == orig);
            doc.lines = lines;
            self.documents.set(i, doc);
            assert(prev[i as int] == m0[i as int]) by {
                assert(prev.subrange(i as int, m0.len() as int)[0] == m0.subrange(i as int, m0.len() as int)[0]);
            }
            assert(self@[i as int] == replace_spec(m0, old_text@, new_text@)[i as int]);
            assert(self@ =~= prev.update(i as int, self@[i as int]));
            assert(self@.subrange(0, i + 1) =~= replace_spec(m0, old_text@, new_text@).subrange(0, i + 1)) by {
                assert(forall|k: int| 0 <= k < i ==> prev.subrange(0, i as int)[k] == replace_spec(m0, old_text@, new_text@).subrange(0, i as int)[k]);
            }
            assert(self@.subrange(i + 1, m0.len() as int) =~= m0.subrange(i + 1, m0.len() as int)) by {
                assert forall|k: int| i < k < m0.len() implies prev[k] == m0[k] by {
                    assert(prev.subrange(i as int, m0.len() as int)[k - i] == m0.subrange(i as int, m0.len() as int)[k - i]);
                }
            }
            proof {
                if any {
                    let b = choose|b: int| 0 <= b < m0[i as int].lines.len() && #[trigger] contains(m0[i as int].lines[b], old_text@);
                    assert(contains(m0[i as int].lines[b], old_text@));
                }
            }
            found = found || any;
            i += 1;
        }
        assert(self@.subrange(0, i as int) =~= self@);
        assert(replace_spec(m0, old_text@, new_text@).subrange(0, i as int) =~= replace_spec(m0, old_text@, new_text@));
        found
    }

    /// Removes every line, in every document, that contains `text`; the other lines keep
    /// their order. Tells whether any line was removed.
    pub fn remove_by_text(&mut self, text: &str) -> (r: bool)
        ensures
            final(self)@ == remove_spec(old(self)@, text@),
            r == mirror_mentions(old(self)@, text@),
    {
        let ghost m0 = self@;
        let mut found = false;
        let mut i: usize = 0;
        assert(self@.subrange(0, 0) =~= Seq::<DocView>::empty());
        while i < self.documents.len()
            invariant
                m0 == old(self)@,
                i <= self@.len(),
                self@.len() == m0.len(),
                self@.len() == self.documents@.len(),
                self@.subrange(0, i as int) == remove_spec(m0, text@).subrange(0, i as int),
                self@.subrange(i as int, m0.len() as int) == m0.subrange(i as int, m0.len() as int),
                found == exists|a: int, b: int|
                    0 <= a < i && 0 <= b < m0[a].lines.len() && #[trigger] contains(
                        m0[a].lines[b],
                        text@,
                    ),
            decreases self@.len() - i,
        {
            let ghost prev = self@;
            let ghost orig = self.documents@[i as int];
            let (lines, any) = remove_from_lines(&self.documents[i].lines, text);
            let mut doc = Document::empty();
            self.documents.set_and_swap(i, &mut doc);
            assert(doc == orig);
            doc.lines = lines;
            self.documents.set(i, doc);
            assert(prev[i as int] == m0[i as int]) by {
                assert(prev.subrange(i as int, m0.len() as int)[0] == m0.subrange(i as int, m0.len() as int)[0]);
            }
            assert(self@[i as int] == remove_spec(m0, text@)[i as int]);
            assert(self@ =~= prev.update(i as int, self@[i as int]));
            assert(self@.subrange(0, i + 1) =~= remove_spec(m0, text@).subrange(0, i + 1)) by {
                assert(forall|k: int| 0 <= k < i ==> prev.subrange(0, i as int)[k] == remove_spec(m0, text@).subrange(0, i as int)[k]);
            }
            assert(self@.subrange(i + 1, m0.len() as int) =~= m0.subrange(i + 1, m0.len() as int)) by {
                assert forall|k: int| i < k < m0.len() implies prev[k] == m0[k] by {
                    assert(prev.subrange(i as int, m0.len() as int)[k - i] == m0.subrange(i as int, m0.len() as int)[k - i]);
                }
            }
            proof {
                if any {
                    let b = choose|b: int| 0 <= b < m0[i as int].lines.len() && #[trigger] contains(m0[i as int].lines[b], text@);
                    assert(contains(m0[i as int].lines[b], text@));
                }
            }
            found = found || any;
            i += 1;
        }
        assert(self@.subrange(0, i as int) =~= self@);
        assert(remove_spec(m0, text@).subrange(0, i as int) =~= remove_spec(m0, text@));
        found
    }
}

} // verus!
