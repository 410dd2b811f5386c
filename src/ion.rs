//! Documents: sections by name.

use vstd::prelude::*;
use crate::error::IonError;
use crate::grammar::{document, SectionModel};
use crate::parser::{faults, Parser};
use crate::section::Section;
use crate::sorted_map::{map_lookup, map_remove, map_vals, SortedMap};

verus! {

/// A parsed document: its sections, in name order.
#[derive(Debug)]
pub struct Ion {
    sections: SortedMap<Section>,
}

impl Ion {
    /// The sections, by name.
    pub closed spec fn spec_sections(&self) -> Seq<(Seq<char>, Section)> {
        self.sections.spec_entries()
    }

    /// What the document holds, as models.
    pub open spec fn model(&self) -> Seq<(Seq<char>, SectionModel)> {
        map_vals(self.spec_sections(), |x: Section| x.model())
    }

    pub fn new(map: SortedMap<Section>) -> (r: Ion)
        ensures
            r.spec_sections() == map.spec_entries(),
    {
        Ion { sections: map }
    }

    /// Reads every section of `s`.
    pub fn parse(s: &str) -> (r: Result<Ion, IonError>)
        ensures
            match document(s@, None) {
                Ok(d) => r matches Ok(ion) && ion.model() == d,
                Err(f) => r matches Err(IonError::ParserErrors(es)) && faults(es@) == seq![f],
            },
    {
        parser_to_ion(Parser::new(s))
    }

    /// Reads the sections of `s` named in `accepted_sections`, each at its
    /// first occurrence; the lines of every other section are skipped unread.
    pub fn from_str_filtered(s: &str, accepted_sections: Vec<&str>) -> (r: Result<Ion, IonError>)
        ensures
            match document(s@, Some(accepted_sections@.map_values(|n: &str| n@))) {
                Ok(d) => r matches Ok(ion) && ion.model() == d,
                Err(f) => r matches Err(IonError::ParserErrors(es)) && faults(es@) == seq![f],
            },
    {
        parser_to_ion(Parser::new_filtered(s, accepted_sections))
    }

    /// The section named `key`.
    pub fn get(&self, key: &str) -> (r: Option<&Section>)
        ensures
            r is None <==> map_lookup(self.spec_sections(), key@) is None,
            r matches Some(x) ==> map_lookup(self.spec_sections(), key@) == Some(*x),
    {
        self.sections.get(key)
    }

    /// The section named `key`, or `MissingSection(key)`.
    pub fn fetch(&self, key: &str) -> (r: Result<&Section, IonError>)
        ensures
            r is Err <==> map_lookup(self.spec_sections(), key@) is None,
            r matches Ok(x) ==> map_lookup(self.spec_sections(), key@) == Some(*x),
            r matches Err(e) ==> e matches IonError::MissingSection(k) && k@ == key@,
    {
        match self.get(key) {
            Some(x) => Ok(x),
            None => Err(IonError::MissingSection(key.to_owned())),
        }
    }

    /// Takes the section named `key` out of the document.
    pub fn remove(&mut self, key: &str) -> (r: Option<Section>)
        ensures
            final(self).spec_sections() == map_remove(old(self).spec_sections(), key@),
            r == map_lookup(old(self).spec_sections(), key@),
    {
        self.sections.remove(key)
    }

    /// The sections, in name order.
    pub fn iter(&self) -> (r: &SortedMap<Section>)
        ensures
            r.spec_entries() == self.spec_sections(),
    {
        &self.sections
    }
}

impl std::str::FromStr for Ion {
    type Err = IonError;

    /// Reads every section of `s`, as `Ion::parse` does.
    fn from_str(s: &str) -> Result<Ion, IonError> {
        Ion::parse(s)
    }
}

/// Runs `parser` to the end and wraps what it read, or the errors it recorded.
fn parser_to_ion(mut parser: Parser) -> (r: Result<Ion, IonError>)
    requires
        parser.wf(),
        parser.errs().len() == 0,
    ensures
        match crate::grammar::assemble(
            parser.text(),
            parser.at(),
            parser.names_left(),
            parser.names_left() is None,
            crate::grammar::initial_assembly(),
        ) {
            Ok(d) => r matches Ok(ion) && ion.model() == d,
            Err(f) => r matches Err(IonError::ParserErrors(es)) && faults(es@) == seq![f],
        },
{
    match parser.read() {
        Some(map) => Ok(Ion::new(map)),
        None => {
            proof {
                assert(faults(Seq::<crate::parser::ParserError>::empty()) =~= Seq::<crate::grammar::Fault>::empty());
                assert(faults(parser.errs()) =~= seq![faults(parser.errs())[0]]);
            }
            Err(IonError::ParserErrors(parser.into_errors()))
        },
    }
}

} // verus!
