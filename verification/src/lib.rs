//! An auto-filing engine for free-text snippets.
//!
//! Given a new snippet of text, the engine decides whether it belongs to an
//! existing topic document or should start a new one, based on lexical
//! similarity to previously stored material, honoring two manual overrides
//! (a pinned "marked" document and the most recently written "latest"
//! document).
//!
//! All scores are exact fixed-point integers scaled by [`fixed::SCALE`]:
//! the contracts pin every computed value down to the unit.

use vstd::prelude::*;

pub mod fixed;
pub mod policy;
pub mod preprocess;
pub mod rake;
pub mod scores;
pub mod similarity;
pub mod store;
pub mod tf_idf;

verus! {

/// Fixed-point similarity weights and thresholds, scaled by [`fixed::SCALE`].
pub struct Config {
    /// Weight of the cosine signal in the combined score; the weighted
    /// Jaccard signal receives the complement.
    pub cosine_weight: u64,
    /// Minimum combined score at which a snippet is filed into an
    /// existing document rather than starting a new one.
    pub threshold: u64,
    /// Bonus added to the most recently written document's score.
    pub latest_bias: u64,
}

impl Config {
    /// The defaults: cosine weight 0.6, threshold 0.4, recency bias 0.25.
    pub fn new() -> (c: Config)
        ensures
            c.cosine_weight == 600_000,
            c.threshold == 400_000,
            c.latest_bias == 250_000,
            c.wf(),
    {
        Config { cosine_weight: 600_000, threshold: 400_000, latest_bias: 250_000 }
    }

    /// A configuration is well formed when the cosine weight is a valid
    /// blend factor, i.e. at most one.
    pub open spec fn wf(self) -> bool {
        self.cosine_weight <= crate::fixed::SCALE && self.latest_bias <= crate::fixed::SCALE
            && self.threshold <= 2 * crate::fixed::SCALE
    }
}

/// The user's key bindings, as the configuration file names them.
/// Consumed by the presentation layer only.
pub struct Keybindings {
    /// Switches between the writing and browsing menus.
    pub switch_menu: Option<String>,
    /// Submits the snippet being written.
    pub submit_snippet: Option<String>,
    /// Opens the picker for the current document.
    pub current_document_picker: Option<String>,
    /// Opens the picker that marks a document.
    pub marked_document_picker: Option<String>,
    /// Opens the picker that deletes a document.
    pub delete_document_picker: Option<String>,
    /// Deletes the document being viewed.
    pub delete_current_document: Option<String>,
    /// Moves the selected snippet to another document.
    pub move_selected_snippet: Option<String>,
    /// Deletes the selected snippet.
    pub delete_selected_snippet: Option<String>,
    /// Opens the selected snippet for editing.
    pub update_selected_snippet: Option<String>,
}

/// The user's scoring settings, each optional and in fixed point: a
/// missing value falls back to the default of [`Config::new`].
pub struct Settings {
    /// Weight of the cosine signal, scaled by [`fixed::SCALE`].
    pub cosine_weight: Option<u64>,
    /// Minimum combined score to auto-file, scaled by [`fixed::SCALE`].
    pub threshold: Option<u64>,
    /// Bonus for the most recently written document, scaled by
    /// [`fixed::SCALE`].
    pub latest_bias: Option<u64>,
}

impl Settings {
    /// The configuration these settings describe: each given value that
    /// lies within its range, and the default for the rest.
    pub fn resolve(&self) -> (c: Config)
        ensures
            c.wf(),
            self.cosine_weight is Some && self.cosine_weight->0 <= crate::fixed::SCALE
                ==> c.cosine_weight == self.cosine_weight->0,
            self.threshold is Some && self.threshold->0 <= 2 * crate::fixed::SCALE
                ==> c.threshold == self.threshold->0,
            self.latest_bias is Some && self.latest_bias->0 <= crate::fixed::SCALE
                ==> c.latest_bias == self.latest_bias->0,
    {
        let mut c = Config::new();
        if let Some(w) = self.cosine_weight {
            if w <= crate::fixed::SCALE {
                c.cosine_weight = w;
            }
        }
        if let Some(t) = self.threshold {
            if t <= 2 * crate::fixed::SCALE {
                c.threshold = t;
            }
        }
        if let Some(b) = self.latest_bias {
            if b <= crate::fixed::SCALE {
                c.latest_bias = b;
            }
        }
        c
    }
}

} // verus!
