//! Format templates for the lines of the tree.
//!
//! A template is compiled once into a [`Pattern`], which then renders any
//! number of packages. The placeholders are `{p}` for the package, `{l}` for
//! its license and `{r}` for its repository.

use vstd::prelude::*;
use crate::package::{Package, PackageView};
use crate::text::str_eq;
use parse::{
    chunk_at, chunks, chunks_from, is_brace, lemma_chunk_at_advances, lemma_text_end_bounds,
    name_close, name_end, raw_views, scan, text_end, ParseError, RawChunk, RawChunkView,
};

pub mod parse;

verus! {

/// One piece of a compiled template.
#[derive(Debug)]
pub enum Chunk {
    /// Text to show as it is.
    Raw(String),
    /// The package: name, version and, where it is not the default registry,
    /// where the package comes from.
    Package,
    /// The package, with name and version set off to mark a violation.
    ViolationPackage,
    /// The license of the package, if it states one.
    License,
    /// The repository of the package, if it states one.
    Repository,
}

/// What a [`Chunk`] holds, as mathematical values.
pub ghost enum ChunkView {
    Raw(Seq<char>),
    Package,
    ViolationPackage,
    License,
    Repository,
}

impl View for Chunk {
    type V = ChunkView;

    open spec fn view(&self) -> ChunkView {
        match *self {
            Chunk::Raw(t) => ChunkView::Raw(t@),
            Chunk::Package => ChunkView::Package,
            Chunk::ViolationPackage => ChunkView::ViolationPackage,
            Chunk::License => ChunkView::License,
            Chunk::Repository => ChunkView::Repository,
        }
    }
}

/// Why a template cannot be compiled.
#[derive(Debug)]
pub enum FormatError {
    /// The template holds a placeholder with this name, which is not one of
    /// `p`, `l` and `r`.
    UnsupportedPlaceholder(String),
    /// The braces of the template are wrong: a `{` is not closed behind its
    /// name, or a `}` stands alone.
    MalformedTemplate(ParseError),
}

/// What a [`FormatError`] holds, as mathematical values.
pub ghost enum FormatErrorView {
    UnsupportedPlaceholder(Seq<char>),
    MalformedTemplate(ParseError),
}

impl View for FormatError {
    type V = FormatErrorView;

    open spec fn view(&self) -> FormatErrorView {
        match *self {
            FormatError::UnsupportedPlaceholder(name) => FormatErrorView::UnsupportedPlaceholder(
                name@,
            ),
            FormatError::MalformedTemplate(e) => FormatErrorView::MalformedTemplate(e),
        }
    }
}

/// What the error says.
pub open spec fn format_message(error: FormatErrorView) -> Seq<char> {
    match error {
        FormatErrorView::UnsupportedPlaceholder(name) => "unsupported pattern `"@ + name + seq!['`'],
        FormatErrorView::MalformedTemplate(ParseError::MissingClose) => "expected '}'"@,
        FormatErrorView::MalformedTemplate(ParseError::StrayClose) => "unexpected '}'"@,
    }
}

impl FormatError {
    /// What the error says, for a person to read.
    pub fn message(&self) -> (text: String)
        ensures
            text@ == format_message(self@),
    {
        match self {
            FormatError::UnsupportedPlaceholder(name) => {
                let mut text = "unsupported pattern `".to_owned();
                text.append(name.as_str());
                proof {
                    reveal_strlit("`");
                    assert("`"@ =~= seq!['`']);
                }
                text.append("`");
                text
            },
            FormatError::MalformedTemplate(ParseError::MissingClose) => "expected '}'".to_owned(),
            FormatError::MalformedTemplate(ParseError::StrayClose) => "unexpected '}'".to_owned(),
        }
    }
}

/// What one piece of a template compiles to.
pub open spec fn compile_chunk(raw: RawChunkView) -> Result<ChunkView, FormatErrorView> {
    match raw {
        RawChunkView::Text(text) => Ok(ChunkView::Raw(text)),
        RawChunkView::Argument(name) => if name == seq!['p'] {
            Ok(ChunkView::Package)
        } else if name == seq!['l'] {
            Ok(ChunkView::License)
        } else if name == seq!['r'] {
            Ok(ChunkView::Repository)
        } else {
            Err(FormatErrorView::UnsupportedPlaceholder(name))
        },
        RawChunkView::Error(e) => Err(FormatErrorView::MalformedTemplate(e)),
    }
}

/// What the pieces of a template compile to: the compiled pieces in order,
/// or the error of the first piece that has one.
pub open spec fn compile(raw: Seq<RawChunkView>) -> Result<Seq<ChunkView>, FormatErrorView>
    decreases raw.len(),
{
    if raw.len() == 0 {
        Ok(Seq::empty())
    } else {
        match compile_chunk(raw[0]) {
            Err(e) => Err(e),
            Ok(first) => match compile(raw.drop_first()) {
                Err(e) => Err(e),
                Ok(rest) => Ok(seq![first] + rest),
            },
        }
    }
}

/// Whether every piece is text or one of the placeholders `{p}`, `{l}` and
/// `{r}`.
pub open spec fn supported(raw: Seq<RawChunkView>) -> bool {
    forall|i: int| 0 <= i < raw.len() ==> compile_chunk(#[trigger] raw[i]) is Ok
}

/// A template compiles exactly when all its pieces are text or supported
/// placeholders, and then into as many pieces.
pub proof fn lemma_compile_succeeds_iff_supported(raw: Seq<RawChunkView>)
    ensures
        compile(raw) is Ok <==> supported(raw),
        compile(raw) matches Ok(compiled) ==> compiled.len() == raw.len(),
    decreases raw.len(),
{
    if raw.len() > 0 {
        let rest = raw.drop_first();
        lemma_compile_succeeds_iff_supported(rest);
        if supported(raw) {
            assert forall|i: int| 0 <= i < rest.len() implies compile_chunk(
                #[trigger] rest[i],
            ) is Ok by {
                assert(rest[i] == raw[i + 1]);
            }
        }
        if compile(raw) is Ok {
            assert forall|i: int| 0 <= i < raw.len() implies compile_chunk(#[trigger] raw[i]) is Ok by {
                if i > 0 {
                    assert(raw[i] == rest[i - 1]);
                }
            }
        }
    }
}

/// Whether the template `s` is, from `pos` on, made of text without braces
/// and of the placeholders `{p}`, `{l}` and `{r}`.
pub open spec fn plain_from(s: Seq<char>, pos: int) -> bool
    decreases s.len() - pos,
{
    if pos < 0 || pos >= s.len() {
        true
    } else if !is_brace(s[pos]) {
        plain_from(s, pos + 1)
    } else {
        &&& s[pos] == '{'
        &&& pos + 2 < s.len()
        &&& s[pos + 1] == 'p' || s[pos + 1] == 'l' || s[pos + 1] == 'r'
        &&& s[pos + 2] == '}'
        &&& plain_from(s, pos + 3)
    }
}

/// Behind a run of text without braces, a template is as plain as before it.
proof fn lemma_plain_behind_text(s: Seq<char>, pos: int)
    requires
        0 <= pos <= s.len(),
        plain_from(s, pos),
    ensures
        plain_from(s, text_end(s, pos)),
    decreases s.len() - pos,
{
    if pos < s.len() && !is_brace(s[pos]) {
        lemma_plain_behind_text(s, pos + 1);
    }
}

/// Every piece of a template that is made of text without braces and of the
/// placeholders `{p}`, `{l}` and `{r}` is text or one of these placeholders.
proof fn lemma_plain_pieces_supported(s: Seq<char>, pos: int)
    requires
        0 <= pos <= s.len(),
        plain_from(s, pos),
    ensures
        supported(chunks_from(s, pos)),
    decreases s.len() - pos,
{
    if pos < s.len() {
        lemma_chunk_at_advances(s, pos);
        let next = chunk_at(s, pos).1;
        if !is_brace(s[pos]) {
            lemma_text_end_bounds(s, pos);
            lemma_plain_behind_text(s, pos);
        } else {
            assert(name_end(s, pos + 2) == pos + 2);
            assert(name_close(s, pos) == pos + 2);
            let name = s.subrange(pos + 1, pos + 2);
            assert(name =~= seq![s[pos + 1]]);
            assert(chunk_at(s, pos).0 == RawChunkView::Argument(name));
            assert(compile_chunk(chunk_at(s, pos).0) is Ok);
        }
        lemma_plain_pieces_supported(s, next);
        let rest = chunks_from(s, next);
        let all = chunks_from(s, pos);
        assert(all =~= seq![chunk_at(s, pos).0] + rest);
        assert forall|i: int| 0 <= i < all.len() implies compile_chunk(#[trigger] all[i]) is Ok by {
            if i > 0 {
                assert(all[i] == rest[i - 1]);
            }
        }
    }
}

/// A template that is made of text without braces and of the placeholders
/// `{p}`, `{l}` and `{r}` compiles.
pub proof fn lemma_plain_template_compiles(template: Seq<char>)
    requires
        plain_from(template, 0),
    ensures
        compile(chunks(template)) is Ok,
{
    lemma_plain_pieces_supported(template, 0);
    lemma_compile_succeeds_iff_supported(chunks(template));
}

/// The template `{p}` compiles to the one piece that shows the package.
pub proof fn lemma_package_template()
    ensures
        compile(chunks("{p}"@)) == Ok::<Seq<ChunkView>, FormatErrorView>(seq![ChunkView::Package]),
{
    reveal_strlit("{p}");
    let s = "{p}"@;
    assert(s.len() == 3 && s[0] == '{' && s[1] == 'p' && s[2] == '}');
    assert(name_end(s, 2) == 2);
    assert(name_close(s, 0) == 2);
    assert(s.subrange(1, 2) =~= seq!['p']);
    assert(chunk_at(s, 0) == (RawChunkView::Argument(seq!['p']), 3int));
    assert(chunks_from(s, 3) =~= Seq::<RawChunkView>::empty());
    let all = chunks(s);
    assert(all =~= seq![RawChunkView::Argument(seq!['p'])]);
    assert(all.drop_first() =~= Seq::<RawChunkView>::empty());
    assert(compile(all.drop_first()) == Ok::<Seq<ChunkView>, FormatErrorView>(Seq::empty()));
    assert(seq![ChunkView::Package] + Seq::<ChunkView>::empty() =~= seq![ChunkView::Package]);
}

/// Compiling goes through the pieces from the front: where the first `n`
/// pieces compile, the whole compiles to what they give followed by what the
/// rest gives.
proof fn lemma_compile_split(raw: Seq<RawChunkView>, n: int)
    requires
        0 <= n <= raw.len(),
        compile(raw.subrange(0, n)) is Ok,
    ensures
        compile(raw) == match compile(raw.subrange(n, raw.len() as int)) {
            Err(e) => Err(e),
            Ok(rest) => Ok(compile(raw.subrange(0, n))->Ok_0 + rest),
        },
    decreases n,
{
    let tail = raw.subrange(n, raw.len() as int);
    if n == 0 {
        assert(tail =~= raw);
        assert(raw.subrange(0, 0) =~= Seq::<RawChunkView>::empty());
        match compile(raw) {
            Ok(rest) => {
                assert(Seq::<ChunkView>::empty() + rest =~= rest);
            },
            Err(_) => {},
        }
    } else {
        let head = raw.subrange(0, n);
        let rest = raw.drop_first();
        assert(head[0] == raw[0]);
        assert(head.drop_first() =~= rest.subrange(0, n - 1));
        assert(rest.subrange(n - 1, rest.len() as int) =~= tail);
        lemma_compile_split(rest, n - 1);
        match compile(tail) {
            Ok(last) => {
                let first = compile_chunk(raw[0])->Ok_0;
                let middle = compile(rest.subrange(0, n - 1))->Ok_0;
                assert(seq![first] + (middle + last) =~= (seq![first] + middle) + last);
            },
            Err(_) => {},
        }
    }
}

/// A compiled template: its pieces, in order.
#[derive(Debug)]
pub struct Pattern(pub Vec<Chunk>);

impl View for Pattern {
    type V = Seq<ChunkView>;

    open spec fn view(&self) -> Seq<ChunkView> {
        self.0@.map_values(|c: Chunk| c@)
    }
}

/// The text `"{name} v{version}"` by which a package is known.
pub open spec fn label(p: PackageView) -> Seq<char> {
    p.name + seq![' ', 'v'] + p.version
}

/// The identifier of the default public registry as a package source.
pub open spec fn crates_io_index() -> Seq<char> {
    "registry+https://github.com/rust-lang/crates.io-index"@
}

/// The text in parentheses that says where a package comes from: its source,
/// unless that is the default public registry, or the directory of its
/// manifest where it has no source.
pub open spec fn origin(p: PackageView) -> Seq<char> {
    match p.source {
        Some(source) => if source == crates_io_index() {
            Seq::empty()
        } else {
            seq![' ', '('] + source + seq![')']
        },
        None => seq![' ', '('] + p.manifest_dir + seq![')'],
    }
}

/// The text of an optional attribute: empty where the package has none.
pub open spec fn or_empty(text: Option<Seq<char>>) -> Seq<char> {
    match text {
        Some(t) => t,
        None => Seq::empty(),
    }
}

/// The text that one piece of a template shows for a package. `marked` is
/// the label of the package as it is set off to mark a violation.
pub open spec fn chunk_text(chunk: ChunkView, p: PackageView, marked: Seq<char>) -> Seq<char> {
    match chunk {
        ChunkView::Raw(text) => text,
        ChunkView::Package => label(p) + origin(p),
        ChunkView::ViolationPackage => marked + origin(p),
        ChunkView::License => or_empty(p.license),
        ChunkView::Repository => or_empty(p.repository),
    }
}

/// The text that a compiled template shows for a package: the texts of its
/// pieces, one after the other.
pub open spec fn render(chunks: Seq<ChunkView>, p: PackageView, marked: Seq<char>) -> Seq<char>
    decreases chunks.len(),
{
    if chunks.len() == 0 {
        Seq::empty()
    } else {
        render(chunks.drop_last(), p, marked) + chunk_text(chunks.last(), p, marked)
    }
}

/// Whether a compiled template has a piece that marks a violation.
pub open spec fn marks(chunks: Seq<ChunkView>) -> bool {
    exists|i: int| 0 <= i < chunks.len() && #[trigger] chunks[i] is ViolationPackage
}

/// A template without a piece that marks a violation shows the same text
/// whatever the marked label is.
pub proof fn lemma_render_without_mark(
    chunks: Seq<ChunkView>,
    p: PackageView,
    marked: Seq<char>,
    other: Seq<char>,
)
    requires
        !marks(chunks),
    ensures
        render(chunks, p, marked) == render(chunks, p, other),
    decreases chunks.len(),
{
    if chunks.len() > 0 {
        assert(!(chunks[chunks.len() - 1] is ViolationPackage));
        assert forall|i: int| 0 <= i < chunks.drop_last().len() implies !(
        #[trigger] chunks.drop_last()[i] is ViolationPackage) by {
            assert(chunks.drop_last()[i] == chunks[i]);
        }
        lemma_render_without_mark(chunks.drop_last(), p, marked, other);
    }
}

/// The escape sequence that switches the terminal to red.
pub open spec fn red_on() -> Seq<char> {
    seq!['\u{1b}', '[', '3', '1', 'm']
}

/// The escape sequence that switches the terminal back to its own colours.
pub open spec fn colour_off() -> Seq<char> {
    seq!['\u{1b}', '[', '0', 'm']
}

/// Whether `marked` can be what setting `text` off in red gives. Where
/// colours are not in use, it is the text itself. Where they are, it begins
/// with the escape sequence for red and ends with the one for reset, and
/// holds the text in between, unchanged unless the text holds an escape
/// character itself.
pub open spec fn set_off(text: Seq<char>, marked: Seq<char>) -> bool {
    ||| marked == text
    ||| {
        &&& marked.len() >= red_on().len() + colour_off().len()
        &&& marked.subrange(0, red_on().len() as int) == red_on()
        &&& marked.subrange(marked.len() - colour_off().len(), marked.len() as int)
            == colour_off()
        &&& !text.contains('\u{1b}') ==> marked == red_on() + text + colour_off()
    }
}

/// Formats what `colored::Colorize::red` gives for `text`. Whether colours
/// are in use is decided by the environment and by the overrides of
/// `colored`, so two calls may differ. Where they are not in use, the text
/// comes back as it is. Where they are, it comes back between the escape
/// sequences for red and for reset; `colored` changes the text in between
/// only where it holds a reset sequence itself, which begins with an escape
/// character.
#[verifier::external_body]
fn red(text: &str) -> (marked: String)
    ensures
        set_off(text@, marked@),
{
    format!("{}", colored::Colorize::red(text))
}

/// Calls `cargo_metadata::Source::is_crates_io` on the source whose text is
/// `source`, which compares that text with the identifier of the crates.io
/// index.
#[verifier::external_body]
fn is_crates_io(source: &str) -> (r: bool)
    ensures
        r == (source@ == crates_io_index()),
{
    cargo_metadata::Source { repr: source.to_owned() }.is_crates_io()
}

/// The label of a package.
pub fn package_label(package: &Package) -> (text: String)
    ensures
        text@ == label(package@),
{
    let mut text = package.name.clone();
    proof {
        reveal_strlit(" v");
    }
    text.append(" v");
    assert(" v"@ =~= seq![' ', 'v']);
    text.append(package.version.as_str());
    text
}

/// Adds to `out` the text in parentheses that says where a package comes
/// from.
fn push_origin(out: &mut String, package: &Package)
    ensures
        final(out)@ == old(out)@ + origin(package@),
{
    proof {
        reveal_strlit(" (");
        reveal_strlit(")");
        assert(" ("@ =~= seq![' ', '(']);
        assert(")"@ =~= seq![')']);
    }
    match &package.source {
        Some(source) => {
            if !is_crates_io(source.as_str()) {
                let ghost before = out@;
                out.append(" (");
                out.append(source.as_str());
                out.append(")");
                assert(out@ =~= before + (seq![' ', '('] + source@ + seq![')']));
            } else {
                assert(out@ =~= out@ + Seq::<char>::empty());
            }
        },
        None => {
            let ghost before = out@;
            out.append(" (");
            out.append(package.manifest_dir.as_str());
            out.append(")");
            assert(out@ =~= before + (seq![' ', '('] + package.manifest_dir@ + seq![')']));
        },
    }
}

impl Pattern {
    /// Compiles a template.
    ///
    /// Fails with `UnsupportedPlaceholder` where the first piece that cannot
    /// be compiled is a placeholder other than `{p}`, `{l}` and `{r}`, and
    /// with `MalformedTemplate` where it is a brace out of place.
    pub fn new(format: &str) -> (r: Result<Pattern, FormatError>)
        ensures
            match r {
                Ok(pattern) => compile(chunks(format@)) == Ok::<Seq<ChunkView>, FormatErrorView>(
                    pattern@,
                ),
                Err(e) => compile(chunks(format@)) == Err::<Seq<ChunkView>, FormatErrorView>(e@),
            },
            r is Ok <==> supported(chunks(format@)),
    {
        let raw = scan(format);
        let ghost all = raw_views(raw@);
        let mut compiled: Vec<Chunk> = Vec::new();
        proof {
            lemma_compile_succeeds_iff_supported(all);
            reveal_strlit("p");
            reveal_strlit("l");
            reveal_strlit("r");
            assert("p"@ =~= seq!['p']);
            assert("l"@ =~= seq!['l']);
            assert("r"@ =~= seq!['r']);
            assert(all.subrange(0, 0) =~= Seq::<RawChunkView>::empty());
            assert(compiled@.map_values(|c: Chunk| c@) =~= Seq::<ChunkView>::empty());
        }
        let mut i: usize = 0;
        while i < raw.len()
            invariant
                i <= raw@.len(),
                all == raw_views(raw@),
                all == chunks(format@),
                "p"@ == seq!['p'],
                "l"@ == seq!['l'],
                "r"@ == seq!['r'],
                compile(all.subrange(0, i as int)) == Ok::<Seq<ChunkView>, FormatErrorView>(
                    compiled@.map_values(|c: Chunk| c@),
                ),
            decreases raw@.len() - i,
        {
            let ghost done = compiled@.map_values(|c: Chunk| c@);
            proof {
                lemma_compile_split(all, i as int);
                let tail = all.subrange(i as int, all.len() as int);
                assert(tail[0] == raw@[i as int]@);
                let next = all.subrange(0, i + 1);
                assert(next.subrange(0, i as int) =~= all.subrange(0, i as int));
                lemma_compile_split(next, i as int);
                let one = next.subrange(i as int, i + 1);
                assert(one =~= seq![all[i as int]]);
                assert(one.drop_first() =~= Seq::<RawChunkView>::empty());
                assert(compile(one.drop_first()) == Ok::<Seq<ChunkView>, FormatErrorView>(
                    Seq::empty(),
                ));
            }
            let chunk = match &raw[i] {
                RawChunk::Text(text) => Chunk::Raw(text.clone()),
                RawChunk::Argument(name) => {
                    if str_eq(name.as_str(), "p") {
                        Chunk::Package
                    } else if str_eq(name.as_str(), "l") {
                        Chunk::License
                    } else if str_eq(name.as_str(), "r") {
                        Chunk::Repository
                    } else {
                        return Err(FormatError::UnsupportedPlaceholder(name.clone()));
                    }
                },
                RawChunk::Error(e) => {
                    return Err(FormatError::MalformedTemplate(*e));
                },
            };
            compiled.push(chunk);
            proof {
                assert(compiled@.map_values(|c: Chunk| c@) =~= done + seq![chunk@]);
                assert(seq![chunk@] + Seq::<ChunkView>::empty() =~= seq![chunk@]);
            }
            i += 1;
        }
        proof {
            assert(all.subrange(0, i as int) =~= all);
        }
        Ok(Pattern(compiled))
    }

    /// Whether the template has a piece that marks a violation.
    pub fn marks_violation(&self) -> (r: bool)
        ensures
            r == marks(self@),
    {
        let mut i: usize = 0;
        while i < self.0.len()
            invariant
                i <= self.0@.len(),
                forall|k: int| 0 <= k < i ==> !(#[trigger] self@[k] is ViolationPackage),
            decreases self.0@.len() - i,
        {
            match &self.0[i] {
                Chunk::ViolationPackage => {
                    assert(self@[i as int] is ViolationPackage);
                    return true;
                },
                _ => {},
            }
            i += 1;
        }
        false
    }

    /// The text that the template shows for `package`, where `marked` is the
    /// label of the package as it is set off to mark a violation.
    pub fn render_with(&self, package: &Package, marked: &str) -> (text: String)
        ensures
            text@ == render(self@, package@, marked@),
    {
        let mut text = String::new();
        let mut i: usize = 0;
        while i < self.0.len()
            invariant
                i <= self.0@.len(),
                text@ == render(self@.subrange(0, i as int), package@, marked@),
            decreases self.0@.len() - i,
        {
            let ghost before = text@;
            proof {
                assert(self@.subrange(0, i + 1).drop_last() =~= self@.subrange(0, i as int));
                assert(self@.subrange(0, i + 1).last() == self.0@[i as int]@);
            }
            match &self.0[i] {
                Chunk::Raw(raw) => {
                    text.append(raw.as_str());
                },
                Chunk::Package => {
                    let plain = package_label(package);
                    text.append(plain.as_str());
                    push_origin(&mut text, package);
                    assert(text@ =~= before + (label(package@) + origin(package@)));
                },
                Chunk::ViolationPackage => {
                    text.append(marked);
                    push_origin(&mut text, package);
                    assert(text@ =~= before + (marked@ + origin(package@)));
                },
                Chunk::License => {
                    match &package.license {
                        Some(license) => {
                            text.append(license.as_str());
                        },
                        None => {
                            assert(text@ =~= before + Seq::<char>::empty());
                        },
                    }
                },
                Chunk::Repository => {
                    match &package.repository {
                        Some(repository) => {
                            text.append(repository.as_str());
                        },
                        None => {
                            assert(text@ =~= before + Seq::<char>::empty());
                        },
                    }
                },
            }
            i += 1;
        }
        proof {
            assert(self@.subrange(0, i as int) =~= self@);
        }
        text
    }

    /// Pairs the template with a package, ready to be shown.
    pub fn display<'a>(&'a self, package: &'a Package) -> (shown: Display<'a>)
        ensures
            shown.pattern@ == self@,
            shown.package@ == package@,
    {
        Display { pattern: self, package }
    }
}

/// A package as a template shows it.
pub struct Display<'a> {
    pub pattern: &'a Pattern,
    pub package: &'a Package,
}

impl<'a> Display<'a> {
    /// The text of the package as the template shows it.
    ///
    /// Where the template marks a violation, the label of the package is set
    /// off in red, as far as colours are in use.
    pub fn to_string(&self) -> (text: String)
        ensures
            exists|marked: Seq<char>|
                set_off(label(self.package@), marked) && text@ == render(
                    self.pattern@,
                    self.package@,
                    marked,
                ),
            !marks(self.pattern@) ==> text@ == render(
                self.pattern@,
                self.package@,
                label(self.package@),
            ),
    {
        let plain = package_label(self.package);
        let marked = if self.pattern.marks_violation() {
            red(plain.as_str())
        } else {
            plain
        };
        proof {
            if !marks(self.pattern@) {
                lemma_render_without_mark(
                    self.pattern@,
                    self.package@,
                    marked@,
                    label(self.package@),
                );
            }
        }
        let text = self.pattern.render_with(self.package, marked.as_str());
        proof {
            assert(set_off(label(self.package@), marked@) && text@ == render(
                self.pattern@,
                self.package@,
                marked@,
            ));
        }
        text
    }
}

} // verus!
