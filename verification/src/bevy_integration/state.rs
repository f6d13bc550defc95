//! Which scene is asked for.
use vstd::prelude::*;

verus! {

/// The scene that is asked for. Whoever renders loads it anew where the generation has
/// changed.
#[derive(Debug)]
pub struct SunrayScene {
    pub gltf_path: Option<String>,
    pub generation: u64,
}

impl Default for SunrayScene {
    /// Nothing was ever asked for.
    fn default() -> (scene: Self)
        ensures
            scene.gltf_path is None,
            scene.generation == 0,
    {
        SunrayScene { gltf_path: None, generation: 0 }
    }
}

impl SunrayScene {
    /// Asks for a scene in place of the present one.
    pub fn request(&mut self, path: String)
        requires
            old(self).generation < u64::MAX,
        ensures
            *final(self) == (SunrayScene {
                gltf_path: Some(path),
                generation: (old(self).generation + 1) as u64,
            }),
    {
        self.gltf_path = Some(path);
        self.generation = self.generation + 1;
    }

    /// Asks for no scene.
    pub fn clear(&mut self)
        requires
            old(self).generation < u64::MAX,
        ensures
            *final(self) == (SunrayScene {
                gltf_path: None,
                generation: (old(self).generation + 1) as u64,
            }),
    {
        self.gltf_path = None;
        self.generation = self.generation + 1;
    }

    /// The path of the scene that is asked for, if one is.
    pub fn current(&self) -> (path: Option<&str>)
        ensures
            match path {
                Some(text) => self.gltf_path matches Some(asked) && text@ == asked@,
                None => self.gltf_path is None,
            },
    {
        match &self.gltf_path {
            Some(path) => Some(path.as_str()),
            None => None,
        }
    }

    /// Asks for a scene from the start.
    pub fn with_gltf(path: String) -> (scene: Self)
        ensures
            scene == (SunrayScene { gltf_path: Some(path), generation: 1 }),
    {
        SunrayScene { gltf_path: Some(path), generation: 1 }
    }
}

} // verus!
