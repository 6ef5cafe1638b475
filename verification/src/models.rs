//! The records of the history: what callers see of one, and how one is stored.

use crate::text::{opt_text, texts};
use vstd::prelude::*;

verus! {

/// One record of the clipboard history.
#[derive(Debug, Clone)]
pub struct ClipboardItem {
    pub id: i64,
    /// `"text"`, `"image"` or `"file"`.
    pub item_type: String,
    pub content: Option<String>,
    pub image_path: Option<String>,
    pub thumbnail_path: Option<String>,
    pub file_paths: Option<Vec<String>>,
    pub file_count: i64,
    pub is_favorite: bool,
    pub is_pinned: bool,
    /// Time of the last copy, as an ISO 8601 text in UTC.
    pub created_at: String,
    pub source_app: Option<String>,
    /// Fingerprint of the pixels, for images only.
    pub image_hash: Option<String>,
}

/// The view of a [`ClipboardItem`].
pub struct ItemView {
    pub id: i64,
    pub item_type: Seq<char>,
    pub content: Option<Seq<char>>,
    pub image_path: Option<Seq<char>>,
    pub thumbnail_path: Option<Seq<char>>,
    pub file_paths: Option<Seq<Seq<char>>>,
    pub file_count: i64,
    pub is_favorite: bool,
    pub is_pinned: bool,
    pub created_at: Seq<char>,
    pub source_app: Option<Seq<char>>,
    pub image_hash: Option<Seq<char>>,
}

/// The view of an optional list of strings.
pub open spec fn opt_texts(o: Option<Vec<String>>) -> Option<Seq<Seq<char>>> {
    match o {
        Some(v) => Some(texts(v@)),
        None => None,
    }
}

impl View for ClipboardItem {
    type V = ItemView;

    open spec fn view(&self) -> ItemView {
        ItemView {
            id: self.id,
            item_type: self.item_type@,
            content: opt_text(self.content),
            image_path: opt_text(self.image_path),
            thumbnail_path: opt_text(self.thumbnail_path),
            file_paths: opt_texts(self.file_paths),
            file_count: self.file_count,
            is_favorite: self.is_favorite,
            is_pinned: self.is_pinned,
            created_at: self.created_at@,
            source_app: opt_text(self.source_app),
            image_hash: opt_text(self.image_hash),
        }
    }
}

/// A record as the table stores it: the paths are one JSON text, the flags are integers.
#[derive(Debug)]
pub struct Row {
    pub id: i64,
    pub item_type: String,
    pub content: Option<String>,
    pub image_path: Option<String>,
    pub thumbnail_path: Option<String>,
    pub file_paths: Option<String>,
    pub file_count: i64,
    pub is_favorite: i32,
    pub is_pinned: i32,
    pub created_at: String,
    pub source_app: Option<String>,
    pub image_hash: Option<String>,
}

/// The view of a [`Row`].
pub struct RowView {
    pub id: i64,
    pub item_type: Seq<char>,
    pub content: Option<Seq<char>>,
    pub image_path: Option<Seq<char>>,
    pub thumbnail_path: Option<Seq<char>>,
    pub file_paths: Option<Seq<char>>,
    pub file_count: i64,
    pub is_favorite: i32,
    pub is_pinned: i32,
    pub created_at: Seq<char>,
    pub source_app: Option<Seq<char>>,
    pub image_hash: Option<Seq<char>>,
}

impl View for Row {
    type V = RowView;

    open spec fn view(&self) -> RowView {
        RowView {
            id: self.id,
            item_type: self.item_type@,
            content: opt_text(self.content),
            image_path: opt_text(self.image_path),
            thumbnail_path: opt_text(self.thumbnail_path),
            file_paths: opt_text(self.file_paths),
            file_count: self.file_count,
            is_favorite: self.is_favorite,
            is_pinned: self.is_pinned,
            created_at: self.created_at@,
            source_app: opt_text(self.source_app),
            image_hash: opt_text(self.image_hash),
        }
    }
}

/// The texts under which the full-text index knows one record.
#[derive(Debug)]
pub struct IndexEntry {
    pub rowid: i64,
    pub content: String,
    pub file_paths: String,
    pub file_name: String,
}

/// The view of an [`IndexEntry`].
pub struct IndexView {
    pub rowid: i64,
    pub content: Seq<char>,
    pub file_paths: Seq<char>,
    pub file_name: Seq<char>,
}

impl View for IndexEntry {
    type V = IndexView;

    open spec fn view(&self) -> IndexView {
        IndexView {
            rowid: self.rowid,
            content: self.content@,
            file_paths: self.file_paths@,
            file_name: self.file_name@,
        }
    }
}

/// A copy of an optional string.
pub fn copy_opt(o: &Option<String>) -> (r: Option<String>)
    ensures
        opt_text(r) == opt_text(*o),
{
    match o {
        Some(s) => Some(s.clone()),
        None => None,
    }
}

/// A copy of a list of strings.
pub fn copy_strings(v: &[String]) -> (r: Vec<String>)
    ensures
        texts(r@) == texts(v@),
{
    let mut out: Vec<String> = Vec::new();
    for i in 0..v.len()
        invariant
            texts(out@) == texts(v@.take(i as int)),
    {
        let ghost before = out@;
        out.push(v[i].clone());
        assert(texts(out@) =~= texts(before).push(v@[i as int]@));
        assert(texts(v@.take(i + 1)) =~= texts(v@.take(i as int)).push(v@[i as int]@));
    }
    assert(v@.take(v@.len() as int) =~= v@);
    out
}

impl Row {
    /// A copy of the row.
    pub fn copy(&self) -> (r: Row)
        ensures
            r@ == self@,
    {
        Row {
            id: self.id,
            item_type: self.item_type.clone(),
            content: copy_opt(&self.content),
            image_path: copy_opt(&self.image_path),
            thumbnail_path: copy_opt(&self.thumbnail_path),
            file_paths: copy_opt(&self.file_paths),
            file_count: self.file_count,
            is_favorite: self.is_favorite,
            is_pinned: self.is_pinned,
            created_at: self.created_at.clone(),
            source_app: copy_opt(&self.source_app),
            image_hash: copy_opt(&self.image_hash),
        }
    }
}

} // verus!
