//! The configuration of one site build: where templates, modules, content
//! and static assets are looked for. Paths are held as plain strings; the
//! surrounding program turns them into filesystem paths.

use vstd::prelude::*;

verus! {

/// The directory lists a build reads from.
pub struct Paths {
    pub templates: Vec<String>,
    pub modules: Vec<String>,
    pub content: Vec<String>,
    // NOTE 'static' is a reserved keyword
    pub statics: Vec<String>,
}

/// A site build under construction: directories are added one at a time.
pub struct Mold {
    pub paths: Paths,
}

impl Mold {
    /// A build with no directories yet.
    pub fn new() -> (m: Mold)
        ensures
            m.paths.templates@.len() == 0,
            m.paths.modules@.len() == 0,
            m.paths.content@.len() == 0,
            m.paths.statics@.len() == 0,
    {
        Mold {
            paths: Paths {
                templates: Vec::new(),
                modules: Vec::new(),
                content: Vec::new(),
                statics: Vec::new(),
            },
        }
    }

    /// Add one more directory to look for templates in.
    pub fn add_templates_dir(&mut self, dir: String)
        ensures
            final(self).paths.templates@ == old(self).paths.templates@.push(dir),
            final(self).paths.modules == old(self).paths.modules,
            final(self).paths.content == old(self).paths.content,
            final(self).paths.statics == old(self).paths.statics,
    {
        self.paths.templates.push(dir);
    }

    /// Add one more directory to look for modules in.
    pub fn add_modules_dir(&mut self, dir: String)
        ensures
            final(self).paths.modules@ == old(self).paths.modules@.push(dir),
            final(self).paths.templates == old(self).paths.templates,
            final(self).paths.content == old(self).paths.content,
            final(self).paths.statics == old(self).paths.statics,
    {
        self.paths.modules.push(dir);
    }

    /// Add one more directory to look for page content in.
    pub fn add_content_dir(&mut self, dir: String)
        ensures
            final(self).paths.content@ == old(self).paths.content@.push(dir),
            final(self).paths.templates == old(self).paths.templates,
            final(self).paths.modules == old(self).paths.modules,
            final(self).paths.statics == old(self).paths.statics,
    {
        self.paths.content.push(dir);
    }

    /// Add one more directory to copy static assets from.
    pub fn add_static_dir(&mut self, dir: String)
        ensures
            final(self).paths.statics@ == old(self).paths.statics@.push(dir),
            final(self).paths.templates == old(self).paths.templates,
            final(self).paths.modules == old(self).paths.modules,
            final(self).paths.content == old(self).paths.content,
    {
        self.paths.statics.push(dir);
    }
}

} // verus!
