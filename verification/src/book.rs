//! Requests, reports and errors of the book renderer.
use vstd::prelude::*;

use crate::text::{push_all, push_str, string_of};

verus! {

/// What went wrong while rendering, as one sentence.
#[derive(Clone, Debug, PartialEq, Eq)]
pub struct RenderError {
    message: String,
}

impl View for RenderError {
    type V = Seq<char>;

    closed spec fn view(&self) -> Seq<char> {
        self.message@
    }
}

impl RenderError {
    pub fn new(message: &str) -> (r: Self)
        ensures
            r@ == message@,
    {
        RenderError { message: String::from_str(message) }
    }

    pub fn from_chars(message: &[char]) -> (r: Self)
        ensures
            r@ == message@,
    {
        RenderError { message: string_of(message) }
    }

    /// `prefix` followed by `detail`.
    pub fn with_detail(prefix: &str, detail: &[char]) -> (r: Self)
        ensures
            r@ == prefix@ + detail@,
    {
        let mut out: Vec<char> = Vec::new();
        push_str(&mut out, prefix);
        push_all(&mut out, detail);
        RenderError { message: string_of(out.as_slice()) }
    }

    /// A copy of this error.
    pub fn clone_error(&self) -> (r: Self)
        ensures
            r@ == self@,
    {
        RenderError { message: self.message.clone() }
    }

    /// The sentence shown to people.
    pub fn message(&self) -> (r: String)
        ensures
            r@ == self@,
    {
        self.message.clone()
    }
}

/// Where the renderer reads the book and writes the Typst project.
#[derive(Clone, Debug, PartialEq, Eq)]
pub struct RenderRequest {
    book_dir: String,
    template_path: String,
    output_dir: String,
}

impl RenderRequest {
    pub closed spec fn book_dir_view(self) -> Seq<char> {
        self.book_dir@
    }

    pub closed spec fn template_path_view(self) -> Seq<char> {
        self.template_path@
    }

    pub closed spec fn output_dir_view(self) -> Seq<char> {
        self.output_dir@
    }

    pub fn new(book_dir: &str, template_path: &str, output_dir: &str) -> (r: Self)
        ensures
            r.book_dir_view() == book_dir@,
            r.template_path_view() == template_path@,
            r.output_dir_view() == output_dir@,
    {
        RenderRequest {
            book_dir: String::from_str(book_dir),
            template_path: String::from_str(template_path),
            output_dir: String::from_str(output_dir),
        }
    }

    pub fn book_dir(&self) -> (r: &str)
        ensures
            r@ == self.book_dir_view(),
    {
        self.book_dir.as_str()
    }

    pub fn template_path(&self) -> (r: &str)
        ensures
            r@ == self.template_path_view(),
    {
        self.template_path.as_str()
    }

    pub fn output_dir(&self) -> (r: &str)
        ensures
            r@ == self.output_dir_view(),
    {
        self.output_dir.as_str()
    }
}

/// What rendering produced: the generated `book.typ` and how many
/// chapters, parts and images it holds.
#[derive(Clone, Debug, PartialEq, Eq)]
pub struct RenderReport {
    output_path: String,
    chapter_count: usize,
    part_count: usize,
    asset_count: usize,
}

impl RenderReport {
    pub closed spec fn output_path_view(self) -> Seq<char> {
        self.output_path@
    }

    pub closed spec fn chapters(self) -> usize {
        self.chapter_count
    }

    pub closed spec fn parts(self) -> usize {
        self.part_count
    }

    pub closed spec fn assets(self) -> usize {
        self.asset_count
    }

    pub fn new(output_path: &str, chapter_count: usize, part_count: usize, asset_count: usize) -> (r: Self)
        ensures
            r.output_path_view() == output_path@,
            r.chapters() == chapter_count,
            r.parts() == part_count,
            r.assets() == asset_count,
    {
        RenderReport {
            output_path: String::from_str(output_path),
            chapter_count,
            part_count,
            asset_count,
        }
    }

    pub fn output_path(&self) -> (r: &str)
        ensures
            r@ == self.output_path_view(),
    {
        self.output_path.as_str()
    }

    pub fn chapter_count(&self) -> (r: usize)
        ensures
            r == self.chapters(),
    {
        self.chapter_count
    }

    pub fn part_count(&self) -> (r: usize)
        ensures
            r == self.parts(),
    {
        self.part_count
    }

    pub fn asset_count(&self) -> (r: usize)
        ensures
            r == self.assets(),
    {
        self.asset_count
    }
}

/// Where the GitBook export reads the book and writes the mirror.
#[derive(Clone, Debug, PartialEq, Eq)]
pub struct GitBookExportRequest {
    book_dir: String,
    output_dir: String,
}

impl GitBookExportRequest {
    pub closed spec fn book_dir_view(self) -> Seq<char> {
        self.book_dir@
    }

    pub closed spec fn output_dir_view(self) -> Seq<char> {
        self.output_dir@
    }

    pub fn new(book_dir: &str, output_dir: &str) -> (r: Self)
        ensures
            r.book_dir_view() == book_dir@,
            r.output_dir_view() == output_dir@,
    {
        GitBookExportRequest {
            book_dir: String::from_str(book_dir),
            output_dir: String::from_str(output_dir),
        }
    }

    pub fn book_dir(&self) -> (r: &str)
        ensures
            r@ == self.book_dir_view(),
    {
        self.book_dir.as_str()
    }

    pub fn output_dir(&self) -> (r: &str)
        ensures
            r@ == self.output_dir_view(),
    {
        self.output_dir.as_str()
    }
}

/// What the GitBook export produced.
#[derive(Clone, Debug, PartialEq, Eq)]
pub struct GitBookExportReport {
    output_directory: String,
    chapter_count: usize,
    asset_count: usize,
}

impl GitBookExportReport {
    pub closed spec fn output_directory_view(self) -> Seq<char> {
        self.output_directory@
    }

    pub closed spec fn chapters(self) -> usize {
        self.chapter_count
    }

    pub closed spec fn assets(self) -> usize {
        self.asset_count
    }

    pub fn new(output_directory: &str, chapter_count: usize, asset_count: usize) -> (r: Self)
        ensures
            r.output_directory_view() == output_directory@,
            r.chapters() == chapter_count,
            r.assets() == asset_count,
    {
        GitBookExportReport {
            output_directory: String::from_str(output_directory),
            chapter_count,
            asset_count,
        }
    }

    pub fn output_directory(&self) -> (r: &str)
        ensures
            r@ == self.output_directory_view(),
    {
        self.output_directory.as_str()
    }

    pub fn chapter_count(&self) -> (r: usize)
        ensures
            r == self.chapters(),
    {
        self.chapter_count
    }

    pub fn asset_count(&self) -> (r: usize)
        ensures
            r == self.assets(),
    {
        self.asset_count
    }
}

} // verus!
