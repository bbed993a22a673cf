//! Page regions (header, footer, background, foreground), how rendered
//! regions are wrapped, and the markup of a rendered region's pages.

use vstd::prelude::*;

use crate::render::word_ops_markup;
use crate::render::word_ops_typst_markup;
use crate::log_text::{lemma_leading_white_exact, leading_white, trim_chars, trimmed};
use crate::text::{
    chars_of, decimal, escaped, is_white_space, is_whitespace, push_char, push_decimal, string_of,
    typst_escape_content,
};
use crate::tokens::{op_views, WordOp};

verus! {

/// A region of the page that page styles can set.
#[derive(Clone, Copy, Debug, PartialEq, Eq, Structural)]
pub enum PageRegionKind {
    Header,
    Footer,
    Background,
    Foreground,
}

/// Where a region edit applies.
#[derive(Clone, Copy, Debug, PartialEq, Eq, Structural)]
pub enum RegionPath {
    RootPage(PageRegionKind),
}

/// The horizontal alignment a rendered region is drawn with.
#[derive(Clone, Copy, Debug, PartialEq, Eq, Structural)]
pub enum RenderedRegionAlignment {
    Left,
    Center,
    Right,
    Start,
    End,
}

/// What a rendered region's text is wrapped in.
#[derive(Clone, Copy, Debug, Default, PartialEq, Eq, Structural)]
pub enum RenderedRegionWrapper {
    /// A plain content block.
    #[default]
    Plain,
    /// A content block inside `align(..)`.
    Align(RenderedRegionAlignment),
}

/// The name of each page region.
pub open spec fn region_name(kind: PageRegionKind) -> Seq<char> {
    match kind {
        PageRegionKind::Header => "header"@,
        PageRegionKind::Footer => "footer"@,
        PageRegionKind::Background => "background"@,
        PageRegionKind::Foreground => "foreground"@,
    }
}

/// The name of a page region.
pub fn page_region_name(kind: PageRegionKind) -> (name: &'static str)
    ensures
        name@ == region_name(kind),
{
    match kind {
        PageRegionKind::Header => "header",
        PageRegionKind::Footer => "footer",
        PageRegionKind::Background => "background",
        PageRegionKind::Foreground => "foreground",
    }
}

/// The position of a region's edits in the modification log: header,
/// footer, background, foreground.
pub open spec fn region_index(path: RegionPath) -> nat {
    match path {
        RegionPath::RootPage(PageRegionKind::Header) => 0,
        RegionPath::RootPage(PageRegionKind::Footer) => 1,
        RegionPath::RootPage(PageRegionKind::Background) => 2,
        RegionPath::RootPage(PageRegionKind::Foreground) => 3,
    }
}

/// The log index of a region's edits.
pub fn region_log_index(path: RegionPath) -> (index: usize)
    ensures
        index == region_index(path),
{
    match path {
        RegionPath::RootPage(PageRegionKind::Header) => 0,
        RegionPath::RootPage(PageRegionKind::Footer) => 1,
        RegionPath::RootPage(PageRegionKind::Background) => 2,
        RegionPath::RootPage(PageRegionKind::Foreground) => 3,
    }
}

/// The identifier of a frame trace: `{side}/{region}/page-{page}`.
pub open spec fn frame_trace_id_spec(side: Seq<char>, kind: PageRegionKind, page: nat) -> Seq<char> {
    side + "/"@ + region_name(kind) + "/page-"@ + decimal(page)
}

/// The identifier of the frame trace of one side, region and page.
pub fn frame_trace_id(side: &str, kind: PageRegionKind, page: usize) -> (id: String)
    ensures
        id@ == frame_trace_id_spec(side@, kind, page as nat),
{
    let mut id = side.to_owned();
    id.append("/");
    id.append(page_region_name(kind));
    id.append("/page-");
    push_decimal(&mut id, page);
    id
}

/// The Typst name of each alignment.
pub open spec fn alignment_name(alignment: RenderedRegionAlignment) -> Seq<char> {
    match alignment {
        RenderedRegionAlignment::Left => "left"@,
        RenderedRegionAlignment::Center => "center"@,
        RenderedRegionAlignment::Right => "right"@,
        RenderedRegionAlignment::Start => "start"@,
        RenderedRegionAlignment::End => "end"@,
    }
}

/// The Typst name of an alignment.
pub fn rendered_region_alignment_name(alignment: RenderedRegionAlignment) -> (name: &'static str)
    ensures
        name@ == alignment_name(alignment),
{
    match alignment {
        RenderedRegionAlignment::Left => "left",
        RenderedRegionAlignment::Center => "center",
        RenderedRegionAlignment::Right => "right",
        RenderedRegionAlignment::Start => "start",
        RenderedRegionAlignment::End => "end",
    }
}

/// The markup that opens a wrapper: a content block, inside `align(..)` when aligned.
pub open spec fn wrapper_start(wrapper: RenderedRegionWrapper) -> Seq<char> {
    match wrapper {
        RenderedRegionWrapper::Plain => "["@,
        RenderedRegionWrapper::Align(alignment) => "align("@ + alignment_name(alignment) + ")["@,
    }
}

/// Appends the markup that opens the wrapper.
pub fn push_rendered_region_wrapper_start(source: &mut String, wrapper: RenderedRegionWrapper)
    ensures
        final(source)@ == old(source)@ + wrapper_start(wrapper),
{
    match wrapper {
        RenderedRegionWrapper::Plain => {
            push_char(source, '[');
            proof {
                reveal_strlit("[");
            }
            assert(final(source)@ =~= old(source)@ + wrapper_start(wrapper));
        },
        RenderedRegionWrapper::Align(alignment) => {
            source.append("align(");
            source.append(rendered_region_alignment_name(alignment));
            source.append(")[");
            assert(final(source)@ =~= old(source)@ + wrapper_start(wrapper));
        },
    }
}

/// Appends the markup that closes a wrapper: `]` whatever the wrapper.
pub fn push_rendered_region_wrapper_end(source: &mut String, _wrapper: RenderedRegionWrapper)
    ensures
        final(source)@ == old(source)@.push(']'),
{
    push_char(source, ']');
}

// ---------------------------------------------------------------------------
// Rendered region pages
// ---------------------------------------------------------------------------

/// One horizontally separate segment of a rendered region on a page.
pub struct RenderedRegionSegmentEdit {
    /// The plain text of the segment's base content.
    pub base: String,
    pub word_ops: Vec<WordOp>,
}

/// The edit of a rendered region on one page.
pub struct RenderedRegionPageEdit {
    pub page: usize,
    /// The plain text of the page's base content.
    pub base: String,
    pub word_ops: Vec<WordOp>,
    pub segments: Vec<RenderedRegionSegmentEdit>,
    pub changed: bool,
}

/// The markups of the first `n` segments, joined by ` #h(1fr) `.
pub open spec fn joined_segments(segments: Seq<RenderedRegionSegmentEdit>, compact: bool, n: nat) -> Seq<char>
    decreases n,
{
    if n == 0 {
        Seq::empty()
    } else if n == 1 {
        word_ops_markup(op_views(segments[0].word_ops@), compact)
    } else {
        joined_segments(segments, compact, (n - 1) as nat) + " #h(1fr) "@ + word_ops_markup(
            op_views(segments[n - 1].word_ops@),
            compact,
        )
    }
}

/// The markup of a page of a rendered region: that of its word operations
/// when it has at most one segment, else the segments' markups spread
/// across the line.
pub open spec fn page_markup(page: RenderedRegionPageEdit, compact: bool) -> Seq<char> {
    if page.segments@.len() <= 1 {
        word_ops_markup(op_views(page.word_ops@), compact)
    } else {
        joined_segments(page.segments@, compact, page.segments@.len())
    }
}

/// The markup of a page of a rendered region.
pub fn rendered_region_page_markup(page: &RenderedRegionPageEdit, compact: bool) -> (markup: String)
    ensures
        markup@ == page_markup(*page, compact),
{
    if page.segments.len() <= 1 {
        return word_ops_typst_markup(page.word_ops.as_slice(), compact);
    }
    let mut out = String::new();
    let mut i: usize = 0;
    while i < page.segments.len()
        invariant
            i <= page.segments@.len(),
            out@ == joined_segments(page.segments@, compact, i as nat),
        decreases page.segments@.len() - i,
    {
        if i > 0 {
            out.append(" #h(1fr) ");
        }
        let segment = word_ops_typst_markup(page.segments[i].word_ops.as_slice(), compact);
        out.append(segment.as_str());
        i += 1;
    }
    out
}


/// The edit of a rendered page region: its kind, its wrapper and its pages.
pub struct RenderedRegionEdit {
    pub kind: PageRegionKind,
    pub wrapper: RenderedRegionWrapper,
    pub pages: Vec<RenderedRegionPageEdit>,
}

/// The branch of the generated context block for one page: `if` for page 1,
/// `else if` for the others.
pub open spec fn page_clause(page: RenderedRegionPageEdit, wrapper: RenderedRegionWrapper, compact: bool) -> Seq<char> {
    "  "@ + (if page.page == 1 { "if"@ } else { "else if"@ }) + " p == "@ + decimal(page.page as nat) + " { "@
        + wrapper_start(wrapper) + page_markup(page, compact) + "]"@ + " }\n"@
}

/// The branches of the first `n` pages.
pub open spec fn page_clauses(pages: Seq<RenderedRegionPageEdit>, wrapper: RenderedRegionWrapper, compact: bool, n: nat) -> Seq<char>
    decreases n,
{
    if n == 0 {
        Seq::empty()
    } else {
        page_clauses(pages, wrapper, compact, (n - 1) as nat) + page_clause(pages[n - 1], wrapper, compact)
    }
}

/// The Typst source that draws a rendered region: a context block that
/// picks the annotated markup by page number and falls back to the last
/// page's text.
pub open spec fn context_source_spec(region: RenderedRegionEdit, compact: bool) -> Seq<char> {
    let pages = region.pages@;
    let fallback = if pages.len() > 0 {
        "  else { "@ + wrapper_start(region.wrapper) + escaped(pages.last().base@) + "]"@ + " }\n"@
    } else {
        Seq::empty()
    };
    "#context {\n  let p = counter(page).get().first()\n"@ + page_clauses(pages, region.wrapper, compact, pages.len())
        + fallback + "}\n"@
}

fn push_page_clause(source: &mut String, page: &RenderedRegionPageEdit, wrapper: RenderedRegionWrapper, compact: bool)
    ensures
        final(source)@ == old(source)@ + page_clause(*page, wrapper, compact),
{
    source.append("  ");
    if page.page == 1 {
        source.append("if");
    } else {
        source.append("else if");
    }
    source.append(" p == ");
    push_decimal(source, page.page);
    source.append(" { ");
    push_rendered_region_wrapper_start(source, wrapper);
    let markup = rendered_region_page_markup(page, compact);
    source.append(markup.as_str());
    push_rendered_region_wrapper_end(source, wrapper);
    source.append(" }\n");
    proof {
        reveal_strlit("]");
    }
    assert(final(source)@ =~= old(source)@ + page_clause(*page, wrapper, compact));
}

/// The Typst source that draws a rendered region; see [`context_source_spec`].
pub fn rendered_region_context_source(region: &RenderedRegionEdit, compact: bool) -> (source: String)
    ensures
        source@ == context_source_spec(*region, compact),
{
    let mut source = "#context {\n  let p = counter(page).get().first()\n".to_owned();
    let ghost head = source@;
    let mut i: usize = 0;
    while i < region.pages.len()
        invariant
            i <= region.pages@.len(),
            source@ == head + page_clauses(region.pages@, region.wrapper, compact, i as nat),
        decreases region.pages@.len() - i,
    {
        push_page_clause(&mut source, &region.pages[i], region.wrapper, compact);
        i += 1;
        assert(source@ =~= head + page_clauses(region.pages@, region.wrapper, compact, i as nat));
    }
    let n = region.pages.len();
    if n > 0 {
        let last = &region.pages[n - 1];
        source.append("  else { ");
        push_rendered_region_wrapper_start(&mut source, region.wrapper);
        let text = typst_escape_content(last.base.as_str());
        source.append(text.as_str());
        push_rendered_region_wrapper_end(&mut source, region.wrapper);
        source.append(" }\n");
        proof {
            reveal_strlit("]");
        }
    }
    source.append("}\n");
    assert(source@ =~= context_source_spec(*region, compact));
    source
}

// ---------------------------------------------------------------------------
// Authored align wrappers
// ---------------------------------------------------------------------------

/// The alignment a name stands for.
pub open spec fn alignment_of_name(name: Seq<char>) -> Option<RenderedRegionAlignment> {
    if name == "left"@ {
        Some(RenderedRegionAlignment::Left)
    } else if name == "center"@ {
        Some(RenderedRegionAlignment::Center)
    } else if name == "right"@ {
        Some(RenderedRegionAlignment::Right)
    } else if name == "start"@ {
        Some(RenderedRegionAlignment::Start)
    } else if name == "end"@ {
        Some(RenderedRegionAlignment::End)
    } else {
        None
    }
}

/// The first position of `c` in `cs`, if any.
pub open spec fn first_index_of(cs: Seq<char>, c: char) -> Option<int> {
    if cs.contains(c) {
        Some(choose|i: int| 0 <= i < cs.len() && cs[i] == c && forall|j: int| 0 <= j < i ==> cs[j] != c)
    } else {
        None
    }
}

/// The characters before the first `c`, or all of them.
pub open spec fn before_first(cs: Seq<char>, c: char) -> Seq<char> {
    match first_index_of(cs, c) {
        Some(i) => cs.take(i),
        None => cs,
    }
}

/// `cs` without the prefix `p`, when it starts with it.
pub open spec fn strip_prefix_spec(cs: Seq<char>, p: Seq<char>) -> Seq<char> {
    if p.len() <= cs.len() && cs.take(p.len() as int) == p {
        cs.skip(p.len() as int)
    } else {
        cs
    }
}

/// The alignment of an `align(...)` call from the text after `align`: the
/// first argument, trimmed and without an `alignment.` prefix, must name an
/// alignment.
pub open spec fn parse_align_spec(after: Seq<char>) -> Option<RenderedRegionAlignment> {
    let s = after.skip(leading_white(after) as int);
    if s.len() == 0 || s[0] != '(' {
        None
    } else {
        let args = s.skip(1);
        match first_index_of(args, ')') {
            None => None,
            Some(close) => {
                let first_arg = trimmed(before_first(args.take(close), ','));
                alignment_of_name(strip_prefix_spec(first_arg, "alignment."@))
            },
        }
    }
}

/// The pattern searched for in authored sources.
pub open spec fn align_word() -> Seq<char> {
    seq!['a', 'l', 'i', 'g', 'n']
}

/// `pat` occurs in `cs` at `i`.
pub open spec fn occurs_at(cs: Seq<char>, pat: Seq<char>, i: int) -> bool {
    0 <= i && i + pat.len() <= cs.len() && cs.subrange(i, i + pat.len()) == pat
}

/// The first occurrence of `pat` in `cs`.
#[verifier::opaque]
pub open spec fn find_spec(cs: Seq<char>, pat: Seq<char>) -> Option<int> {
    if exists|i: int| occurs_at(cs, pat, i) {
        Some(choose|i: int| occurs_at(cs, pat, i) && forall|j: int| 0 <= j < i ==> !occurs_at(cs, pat, j))
    } else {
        None
    }
}

/// The alignment that an occurrence of `align` followed by `after`
/// contributes: the parsed call when white space or `(` follows.
pub open spec fn hit_after(after: Seq<char>) -> Option<RenderedRegionAlignment> {
    if after.len() > 0 && (is_white_space(after[0]) || after[0] == '(') {
        parse_align_spec(after)
    } else {
        None
    }
}

/// The hits as a sequence of at most one alignment.
pub open spec fn found_hits(found: Option<RenderedRegionAlignment>) -> Seq<RenderedRegionAlignment> {
    match found {
        Some(a) => seq![a],
        None => Seq::empty(),
    }
}

/// The alignments of the `align` calls in `rest`, in order: each occurrence
/// of `align`, searched from the end of the previous one, whose call parses.
#[verifier::opaque]
pub open spec fn align_hits(rest: Seq<char>) -> Seq<RenderedRegionAlignment>
    decreases rest.len(),
{
    match find_spec(rest, align_word()) {
        None => Seq::empty(),
        Some(i) => {
            if 0 <= i && i + 5 <= rest.len() {
                let after = rest.skip(i + 5);
                found_hits(hit_after(after)) + align_hits(after)
            } else {
                Seq::empty()
            }
        }
    }
}

/// The wrapper of an authored region source: the alignment when exactly one
/// `align` call parses, else none.
pub open spec fn authored_align_spec(source: Seq<char>) -> Option<RenderedRegionWrapper> {
    let hits = align_hits(source);
    if hits.len() == 1 {
        Some(RenderedRegionWrapper::Align(hits[0]))
    } else {
        None
    }
}


/// The first position of `c` is where a scan stops.
pub proof fn lemma_first_index_at(cs: Seq<char>, c: char, i: int)
    requires
        0 <= i <= cs.len(),
        forall|k: int| 0 <= k < i ==> cs[k] != c,
        i < cs.len() ==> cs[i] == c,
    ensures
        first_index_of(cs, c) == (if i < cs.len() { Some(i) } else { None::<int> }),
{
    if i < cs.len() {
        assert(cs.contains(c));
        let k = choose|k: int| 0 <= k < cs.len() && cs[k] == c && forall|j: int| 0 <= j < k ==> cs[j] != c;
        assert(0 <= i < cs.len() && cs[i] == c && forall|j: int| 0 <= j < i ==> cs[j] != c);
        if k < i {
            assert(cs[k] != c);
        }
        if k > i {
            assert(cs[i] != c);
        }
    } else {
        assert(!cs.contains(c));
    }
}

/// The first position in `cs[from..to]` holding `c`, or `to`.
pub(crate) fn scan_to(cs: &[char], from: usize, to: usize, c: char) -> (i: usize)
    requires
        from <= to <= cs@.len(),
    ensures
        from <= i <= to,
        forall|k: int| from <= k < i ==> cs@[k] != c,
        i < to ==> cs@[i as int] == c,
{
    let mut i = from;
    while i < to && cs[i] != c
        invariant
            from <= i <= to,
            to <= cs@.len(),
            forall|k: int| from <= k < i ==> cs@[k] != c,
        decreases to - i,
    {
        i += 1;
    }
    i
}

fn name_alignment(name: &str) -> (a: Option<RenderedRegionAlignment>)
    ensures
        a == alignment_of_name(name@),
{
    if crate::edit_script::str_eq(name, "left") {
        Some(RenderedRegionAlignment::Left)
    } else if crate::edit_script::str_eq(name, "center") {
        Some(RenderedRegionAlignment::Center)
    } else if crate::edit_script::str_eq(name, "right") {
        Some(RenderedRegionAlignment::Right)
    } else if crate::edit_script::str_eq(name, "start") {
        Some(RenderedRegionAlignment::Start)
    } else if crate::edit_script::str_eq(name, "end") {
        Some(RenderedRegionAlignment::End)
    } else {
        None
    }
}

fn leading_space_count(cs: &[char]) -> (p: usize)
    ensures
        p == leading_white(cs@),
        p <= cs@.len(),
{
    let n = cs.len();
    let mut p: usize = 0;
    while p < n && is_whitespace(cs[p])
        invariant
            n == cs@.len(),
            p <= n,
            forall|k: int| 0 <= k < p ==> is_white_space(#[trigger] cs@[k]),
        decreases n - p,
    {
        p += 1;
    }
    proof {
        lemma_leading_white_exact(cs@, p as nat);
    }
    p
}

/// The first argument of an argument list `cs[start..close]`: the text
/// before the first comma, trimmed.
fn first_argument(cs: &[char], start: usize, close: usize) -> (arg: String)
    requires
        start <= close <= cs@.len(),
    ensures
        arg@ == trimmed(before_first(cs@.subrange(start as int, close as int), ',')),
{
    let ghost inside = cs@.subrange(start as int, close as int);
    let comma = scan_to(cs, start, close, ',');
    proof {
        lemma_first_index_at(inside, ',', comma - start);
    }
    assert(before_first(inside, ',') =~= cs@.subrange(start as int, comma as int));
    let mut first_chars: Vec<char> = Vec::new();
    let mut k = start;
    while k < comma
        invariant
            start <= k <= comma <= close <= cs@.len(),
            first_chars@ == cs@.subrange(start as int, k as int),
        decreases comma - k,
    {
        first_chars.push(cs[k]);
        k += 1;
        assert(first_chars@ =~= cs@.subrange(start as int, k as int));
    }
    trim_chars(&first_chars)
}

fn strip_alignment_prefix(arg: String) -> (name: String)
    ensures
        name@ == strip_prefix_spec(arg@, "alignment."@),
{
    let arg_chars = chars_of(arg.as_str());
    let prefix = "alignment.";
    proof {
        reveal_strlit("alignment.");
    }
    let m = arg_chars.len();
    if m >= 10 {
        let head = string_of(&arg_chars.as_slice()[0..10]);
        assert(arg_chars@.subrange(0, 10) =~= arg_chars@.take(10));
        if crate::edit_script::str_eq(head.as_str(), prefix) {
            let rest = string_of(&arg_chars.as_slice()[10..m]);
            assert(arg_chars@.subrange(10, m as int) =~= arg_chars@.skip(10));
            return rest;
        }
    }
    arg
}

fn parse_align_chars(cs: &[char]) -> (a: Option<RenderedRegionAlignment>)
    ensures
        a == parse_align_spec(cs@),
{
    let n = cs.len();
    let p = leading_space_count(cs);
    let ghost s = cs@.skip(p as int);
    if p == n || cs[p] != '(' {
        return None;
    }
    assert(s[0] == cs@[p as int]);
    let start = p + 1;
    let ghost args = s.skip(1);
    assert(args =~= cs@.subrange(start as int, n as int));
    let close = scan_to(cs, start, n, ')');
    proof {
        lemma_first_index_at(args, ')', close - start);
    }
    if close == n {
        return None;
    }
    assert(args.take(close - start) =~= cs@.subrange(start as int, close as int));
    let arg = first_argument(cs, start, close);
    let name = strip_alignment_prefix(arg);
    name_alignment(name.as_str())
}

/// The alignment of an `align(...)` call, from the text after `align`.
pub fn parse_align_call_alignment(after_align: &str) -> (a: Option<RenderedRegionAlignment>)
    ensures
        a == parse_align_spec(after_align@),
{
    let cs = chars_of(after_align);
    parse_align_chars(cs.as_slice())
}


proof fn lemma_find_at(t: Seq<char>, pat: Seq<char>, i: int)
    requires
        0 <= i,
        forall|k: int| 0 <= k < i ==> !occurs_at(t, pat, k),
        occurs_at(t, pat, i) || i + pat.len() > t.len(),
    ensures
        find_spec(t, pat) == (if occurs_at(t, pat, i) { Some(i) } else { None::<int> }),
{
    reveal(find_spec);
    if occurs_at(t, pat, i) {
        let k = choose|k: int| occurs_at(t, pat, k) && forall|j: int| 0 <= j < k ==> !occurs_at(t, pat, j);
        assert(occurs_at(t, pat, i) && forall|j: int| 0 <= j < i ==> !occurs_at(t, pat, j));
        if k < i {
            assert(!occurs_at(t, pat, k));
        }
        if k > i {
            assert(!occurs_at(t, pat, i));
        }
    } else {
        assert forall|k: int| !occurs_at(t, pat, k) by {
            if 0 <= k < i {
            } else if k >= i {
                assert(k + pat.len() > t.len());
            }
        }
    }
}

fn align_at(cs: &[char], j: usize) -> (b: bool)
    requires
        j + 5 <= cs@.len(),
    ensures
        b == (cs@.subrange(j as int, j + 5) == align_word()),
{
    let b = cs[j] == 'a' && cs[j + 1] == 'l' && cs[j + 2] == 'i' && cs[j + 3] == 'g' && cs[j + 4] == 'n';
    if b {
        assert(cs@.subrange(j as int, j + 5) =~= align_word());
    } else {
        assert(cs@.subrange(j as int, j + 5) != align_word()) by {
            if cs@.subrange(j as int, j + 5) == align_word() {
                assert(cs@.subrange(j as int, j + 5)[0] == 'a');
                assert(cs@.subrange(j as int, j + 5)[1] == 'l');
                assert(cs@.subrange(j as int, j + 5)[2] == 'i');
                assert(cs@.subrange(j as int, j + 5)[3] == 'g');
                assert(cs@.subrange(j as int, j + 5)[4] == 'n');
            }
        }
    }
    b
}

/// The next occurrence of `align` in `cs[rest..]`, as an absolute position.
fn find_align(cs: &[char], rest: usize) -> (found: Option<usize>)
    requires
        rest <= cs@.len(),
    ensures
        match find_spec(cs@.skip(rest as int), align_word()) {
            Some(i) => found is Some && found.unwrap() == rest + i,
            None => found is None,
        },
        match found {
            Some(j) => rest <= j && j + 5 <= cs@.len(),
            None => true,
        },
{
    let n = cs.len();
    let ghost t = cs@.skip(rest as int);
    let mut j = rest;
    while n - j >= 5 && !align_at(cs, j)
        invariant
            n == cs@.len(),
            rest <= j <= n,
            t == cs@.skip(rest as int),
            forall|k: int| 0 <= k < j - rest ==> !occurs_at(t, align_word(), k),
        decreases n - j,
    {
        assert(!occurs_at(t, align_word(), j - rest)) by {
            assert(t.subrange(j - rest, j - rest + 5) =~= cs@.subrange(j as int, j + 5));
        }
        j += 1;
    }
    if n - j >= 5 {
        assert(occurs_at(t, align_word(), j - rest)) by {
            assert(t.subrange(j - rest, j - rest + 5) =~= cs@.subrange(j as int, j + 5));
        }
        proof {
            lemma_find_at(t, align_word(), j - rest);
        }
        Some(j)
    } else {
        proof {
            lemma_find_at(t, align_word(), j - rest);
        }
        None
    }
}

/// The hit contributed by the occurrence of `align` ending at `after`.
fn hit_at(cs: &[char], after: usize) -> (hit: Option<RenderedRegionAlignment>)
    requires
        after <= cs@.len(),
    ensures
        hit == hit_after(cs@.skip(after as int)),
{
    let n = cs.len();
    let ghost rest = cs@.skip(after as int);
    if after < n && (is_whitespace(cs[after]) || cs[after] == '(') {
        assert(rest[0] == cs@[after as int]);
        assert(cs@.subrange(after as int, n as int) =~= rest);
        parse_align_chars(&cs[after..n])
    } else {
        if after < n {
            assert(rest[0] == cs@[after as int]);
        }
        None
    }
}

proof fn lemma_align_hits_step(cs: Seq<char>, rest: int, index: int)
    requires
        0 <= rest <= index,
        index + 5 <= cs.len(),
        find_spec(cs.skip(rest), align_word()) == Some(index - rest),
    ensures
        align_hits(cs.skip(rest)) == found_hits(hit_after(cs.skip(index + 5))) + align_hits(cs.skip(index + 5)),
{
    let t = cs.skip(rest);
    assert(t.skip(index - rest + 5) =~= cs.skip(index + 5));
    reveal_with_fuel(align_hits, 1);
}

proof fn lemma_align_hits_none(t: Seq<char>)
    requires
        find_spec(t, align_word()) is None,
    ensures
        align_hits(t) == Seq::<RenderedRegionAlignment>::empty(),
{
    reveal_with_fuel(align_hits, 1);
}

/// The wrapper of an authored region source: the alignment when exactly one
/// `align` call in it parses, else none.
pub fn authored_align_wrapper(source: &str) -> (wrapper: Option<RenderedRegionWrapper>)
    ensures
        wrapper == authored_align_spec(source@),
{
    let cs = chars_of(source);
    let n = cs.len();
    let mut found: Option<RenderedRegionAlignment> = None;
    let mut rest: usize = 0;
    assert(cs@.skip(0) =~= cs@);
    loop
        invariant
            n == cs@.len(),
            cs@ == source@,
            rest <= n,
            align_hits(cs@) == found_hits(found) + align_hits(cs@.skip(rest as int)),
        ensures
            align_hits(cs@) == found_hits(found),
        decreases n - rest,
    {
        match find_align(cs.as_slice(), rest) {
            None => {
                proof {
                    lemma_align_hits_none(cs@.skip(rest as int));
                }
                assert(align_hits(cs@) =~= found_hits(found));
                break;
            },
            Some(index) => {
                let after = index + 5;
                proof {
                    lemma_align_hits_step(cs@, rest as int, index as int);
                }
                let hit = hit_at(cs.as_slice(), after);
                match hit {
                    Some(a) => {
                        if found.is_some() {
                            assert(align_hits(cs@).len() >= 2);
                            return None;
                        }
                        found = Some(a);
                    },
                    None => {},
                }
                assert(align_hits(cs@) =~= found_hits(found) + align_hits(cs@.skip(after as int)));
                rest = after;
            },
        }
    }
    match found {
        Some(a) => Some(RenderedRegionWrapper::Align(a)),
        None => None,
    }
}


// ---------------------------------------------------------------------------
// Frame tags
// ---------------------------------------------------------------------------

/// A tag open while walking a page frame.
pub struct FrameTag {
    pub is_artifact: bool,
    pub elem_name: String,
}

/// The number of artifact tags among the first `n` tags.
pub open spec fn artifact_count(tags: Seq<FrameTag>, n: nat) -> nat
    decreases n,
{
    if n == 0 {
        0
    } else {
        artifact_count(tags, (n - 1) as nat) + if tags[n - 1].is_artifact { 1nat } else { 0nat }
    }
}

proof fn lemma_artifact_count_bound(tags: Seq<FrameTag>, n: nat)
    ensures
        artifact_count(tags, n) <= n,
    decreases n,
{
    if n > 0 {
        lemma_artifact_count_bound(tags, (n - 1) as nat);
    }
}

/// How many of the open tags are artifacts.
pub fn artifact_depth(tag_stack: &[FrameTag]) -> (depth: usize)
    ensures
        depth == artifact_count(tag_stack@, tag_stack@.len()),
{
    let mut depth: usize = 0;
    let mut i: usize = 0;
    while i < tag_stack.len()
        invariant
            i <= tag_stack@.len(),
            depth == artifact_count(tag_stack@, i as nat),
        decreases tag_stack@.len() - i,
    {
        proof {
            lemma_artifact_count_bound(tag_stack@, (i + 1) as nat);
        }
        if tag_stack[i].is_artifact {
            depth += 1;
        }
        i += 1;
    }
    depth
}

} // verus!
