//! An installed addon, as its directory describes it.

use vstd::prelude::*;

use crate::text::{copy_texts, texts};

verus! {

/// An addon.
#[derive(Debug, PartialEq)]
pub struct Addon {
    /// The name of the addon's directory.
    pub id: String,
    /// The title without color marks.
    pub title: String,
    pub author: Option<String>,
    pub notes: Option<String>,
    pub version: Option<String>,
    /// The addon's directory.
    pub path: String,
    /// The ids of other addons that belong to this one.
    pub dependencies: Vec<String>,
    /// The project id at WowInterface.
    pub wowi_id: Option<String>,
    /// The project id at Tukui.
    pub tukui_id: Option<String>,
    /// The project id at Curse.
    pub curse_id: Option<u32>,
    /// The fingerprint of the directory.
    pub fingerprint: Option<u32>,
}

/// What an [`Addon`] says.
#[verifier::ext_equal]
pub struct AddonView {
    pub id: Seq<char>,
    pub title: Seq<char>,
    pub author: Option<Seq<char>>,
    pub notes: Option<Seq<char>>,
    pub version: Option<Seq<char>>,
    pub path: Seq<char>,
    pub dependencies: Seq<Seq<char>>,
    pub wowi_id: Option<Seq<char>>,
    pub tukui_id: Option<Seq<char>>,
    pub curse_id: Option<u32>,
    pub fingerprint: Option<u32>,
}

/// The text of an optional string.
pub open spec fn opt_text(s: Option<String>) -> Option<Seq<char>> {
    match s {
        Some(text) => Some(text@),
        None => None,
    }
}

impl View for Addon {
    type V = AddonView;

    open spec fn view(&self) -> AddonView {
        AddonView {
            id: self.id@,
            title: self.title@,
            author: opt_text(self.author),
            notes: opt_text(self.notes),
            version: opt_text(self.version),
            path: self.path@,
            dependencies: texts(self.dependencies@),
            wowi_id: opt_text(self.wowi_id),
            tukui_id: opt_text(self.tukui_id),
            curse_id: self.curse_id,
            fingerprint: self.fingerprint,
        }
    }
}

impl Addon {
    /// An addon without a fingerprint.
    pub fn new(
        id: String,
        title: String,
        author: Option<String>,
        notes: Option<String>,
        version: Option<String>,
        path: String,
        dependencies: Vec<String>,
        wowi_id: Option<String>,
        tukui_id: Option<String>,
        curse_id: Option<u32>,
    ) -> (r: Addon)
        ensures
            r@ == (AddonView {
                id: id@,
                title: title@,
                author: opt_text(author),
                notes: opt_text(notes),
                version: opt_text(version),
                path: path@,
                dependencies: texts(dependencies@),
                wowi_id: opt_text(wowi_id),
                tukui_id: opt_text(tukui_id),
                curse_id,
                fingerprint: None,
            }),
    {
        Addon {
            id,
            title,
            author,
            notes,
            version,
            path,
            dependencies,
            wowi_id,
            tukui_id,
            curse_id,
            fingerprint: None,
        }
    }
}

/// What a list of addons says, one by one.
pub open spec fn addon_views(list: Seq<Addon>) -> Seq<AddonView> {
    list.map_values(|a: Addon| a@)
}

fn clone_text(s: &Option<String>) -> (r: Option<String>)
    ensures
        opt_text(r) == opt_text(*s),
{
    match s {
        Some(text) => Some(text.clone()),
        None => None,
    }
}

impl Clone for Addon {
    fn clone(&self) -> (r: Self)
        ensures
            r@ == self@,
    {
        Addon {
            id: self.id.clone(),
            title: self.title.clone(),
            author: clone_text(&self.author),
            notes: clone_text(&self.notes),
            version: clone_text(&self.version),
            path: self.path.clone(),
            dependencies: copy_texts(&self.dependencies),
            wowi_id: clone_text(&self.wowi_id),
            tukui_id: clone_text(&self.tukui_id),
            curse_id: self.curse_id,
            fingerprint: self.fingerprint,
        }
    }
}

} // verus!
