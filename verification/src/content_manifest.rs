//! What a depot's content manifest says of the files that it installs.
use vstd::prelude::*;

verus! {

/// One file or directory of a manifest, with its decrypted name.
#[derive(Clone, Debug, PartialEq, Eq)]
pub struct ManifestFile {
    pub filename: String,
    pub flags: u32,
}

/// A manifest, its filenames decrypted.
#[derive(Clone, Debug, PartialEq, Eq)]
pub struct ContentManifest {
    pub files: Vec<ManifestFile>,
}

/// A manifest file by its values.
#[verifier::ext_equal]
pub struct ManifestFileView {
    pub filename: Seq<char>,
    pub flags: u32,
}

impl View for ManifestFile {
    type V = ManifestFileView;

    open spec fn view(&self) -> ManifestFileView {
        ManifestFileView { filename: self.filename@, flags: self.flags }
    }
}

impl View for ContentManifest {
    type V = Seq<ManifestFileView>;

    open spec fn view(&self) -> Seq<ManifestFileView> {
        self.files@.map_values(|file: ManifestFile| file@)
    }
}

} // verus!
