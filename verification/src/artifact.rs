//! Artifact records: the second kind of content file next to regions.

use vstd::prelude::*;

verus! {

/// A named artifact of the game world, loaded from its own content file.
#[derive(Debug, Clone)]
pub struct Artifact {
    pub id: String,
    pub name: String,
    pub description: String,
    pub power: i32,
    pub magic_affinity: Option<i32>,
    pub rarity: String,
}

/// The mathematical value of an [`Artifact`].
#[verifier::ext_equal]
pub ghost struct ArtifactView {
    pub id: Seq<char>,
    pub name: Seq<char>,
    pub description: Seq<char>,
    pub power: i32,
    pub magic_affinity: Option<i32>,
    pub rarity: Seq<char>,
}

impl View for Artifact {
    type V = ArtifactView;

    open spec fn view(&self) -> ArtifactView {
        ArtifactView {
            id: self.id@,
            name: self.name@,
            description: self.description@,
            power: self.power,
            magic_affinity: self.magic_affinity,
            rarity: self.rarity@,
        }
    }
}

impl DeepView for Artifact {
    type V = ArtifactView;

    open spec fn deep_view(&self) -> ArtifactView {
        self.view()
    }
}

} // verus!
