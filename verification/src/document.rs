//! The in-memory document: its data under one format, and the file it
//! belongs to.
//!
//! `Data` is the parsed content of a document, one variant per registered
//! format.  `File` pairs it with the path it was read from and will be
//! written back to.  Reading and writing the bytes themselves is the
//! caller's task: `load`, `load_as` and `save` work on byte strings.

use vstd::prelude::*;
use crate::apply::{apply_model, apply_sections, lemma_apply_model_wf};
use crate::format::{Format, all_formats, registry};
use crate::ini::{
    DocModel, ParseError, Section, doc_bytes, doc_model, parse_ini, parse_ini_spec,
    serialize_ini, wf_doc,
};

verus! {

/// No registered format accepts the file.
#[derive(Clone, Copy, Debug, PartialEq, Eq, Structural)]
pub struct UnsupportedFormat;

/// The parsed content of a document, tagged with the grammar that produced
/// it.
#[derive(Debug, Clone, PartialEq, Eq)]
pub enum Data {
    /// Sectioned `key=value` content.
    Ini(Vec<Section>),
}

impl View for Data {
    type V = DocModel;

    /// The content: sections with their ordered entries.
    open spec fn view(&self) -> DocModel {
        match self {
            Data::Ini(secs) => doc_model(secs@),
        }
    }
}

/// What a byte string means under the given format.
pub open spec fn spec_parse_as(f: Format, s: Seq<u8>) -> Option<DocModel> {
    match f {
        Format::Ini => parse_ini_spec(s),
    }
}

/// The bytes a document serializes to under the given format.
pub open spec fn spec_serialize_as(f: Format, m: DocModel) -> Seq<u8> {
    match f {
        Format::Ini => doc_bytes(m),
    }
}

/// What auto-detection yields: the first format of the list that accepts
/// the bytes, with the content it parses to.
pub open spec fn spec_load_auto(s: Seq<u8>, fmts: Seq<Format>) -> Option<(Format, DocModel)>
    decreases fmts.len(),
{
    if fmts.len() == 0 {
        None
    } else if spec_parse_as(fmts[0], s) is Some {
        Some((fmts[0], spec_parse_as(fmts[0], s)->Some_0))
    } else {
        spec_load_auto(s, fmts.drop_first())
    }
}

/// What loading a byte string auto-detects under the registry order.
pub open spec fn spec_load(s: Seq<u8>) -> Option<(Format, DocModel)> {
    spec_load_auto(s, registry())
}

impl Data {
    /// The format this content was parsed with.
    pub open spec fn spec_format(&self) -> Format {
        match self {
            Data::Ini(_) => Format::Ini,
        }
    }

    /// The format tag of this content.
    pub fn format(&self) -> (f: Format)
        ensures
            f == self.spec_format(),
    {
        match self {
            Data::Ini(_) => Format::Ini,
        }
    }

    /// Whether two contents may be merged: exactly when their formats are
    /// equal.
    pub fn compatible(&self, x: &Data) -> (r: bool)
        ensures
            r == (self.spec_format() == x.spec_format()),
    {
        self.format() == x.format()
    }

    /// Parses a byte string strictly as the given format.
    pub fn parse_as(text: &[u8], format: &Format) -> (r: Result<Data, ParseError>)
        ensures
            match r {
                Ok(d) => spec_parse_as(*format, text@) == Some(d@) && d.spec_format() == *format
                    && wf_doc(d@),
                Err(_) => spec_parse_as(*format, text@) is None,
            },
    {
        match format {
            Format::Ini => match parse_ini(text) {
                Ok(secs) => Ok(Data::Ini(secs)),
                Err(e) => Err(e),
            },
        }
    }

    /// Parses a byte string with each registered format in registry order;
    /// the first that accepts it wins.
    pub fn load_auto(text: &[u8]) -> (r: Result<Data, UnsupportedFormat>)
        ensures
            match r {
                Ok(d) => spec_load(text@) == Some((d.spec_format(), d@)) && wf_doc(d@),
                Err(_) => spec_load(text@) is None,
            },
    {
        let formats = all_formats();
        proof {
            assert(registry().skip(0) =~= registry());
        }
        let mut i: usize = 0;
        while i < formats.len()
            invariant
                i <= formats@.len(),
                formats@ == registry(),
                spec_load(text@) == spec_load_auto(text@, registry().skip(i as int)),
            decreases formats@.len() - i,
        {
            let ghost fmts = registry().skip(i as int);
            proof {
                assert(fmts[0] == registry()[i as int]);
                assert(fmts.drop_first() =~= registry().skip(i + 1 as int));
            }
            match Data::parse_as(text, &formats[i]) {
                Ok(d) => {
                    return Ok(d);
                },
                Err(_) => {},
            }
            i = i + 1;
        }
        proof {
            assert(registry().skip(i as int).len() == 0);
        }
        Err(UnsupportedFormat)
    }

    /// Merges the patch's content into this one: the patch's values
    /// overwrite or extend, and nothing already here is deleted.
    pub fn apply(&mut self, patch: &Data)
        ensures
            final(self)@ == apply_model(old(self)@, patch@),
            final(self).spec_format() == old(self).spec_format(),
            wf_doc(old(self)@) && wf_doc(patch@) ==> wf_doc(final(self)@),
    {
        proof {
            if wf_doc(old(self)@) && wf_doc(patch@) {
                lemma_apply_model_wf(old(self)@, patch@);
            }
        }
        match self {
            Data::Ini(target) => match patch {
                Data::Ini(p) => apply_sections(target, p),
            },
        }
    }

    /// Serializes this content back into its own grammar.
    pub fn save(self) -> (out: Vec<u8>)
        ensures
            out@ == spec_serialize_as(self.spec_format(), self@),
    {
        match self {
            Data::Ini(secs) => serialize_ini(&secs),
        }
    }
}

/// Round trip: a well-formed document, serialized under its own format and
/// parsed back under that same format, is reproduced exactly: the same
/// sections, keys and values, in the same order.
pub proof fn lemma_data_round_trip(d: Data)
    requires
        wf_doc(d@),
    ensures
        spec_parse_as(d.spec_format(), spec_serialize_as(d.spec_format(), d@)) == Some(d@),
{
    match d {
        Data::Ini(_) => {
            crate::ini::lemma_save_load_round_trip(d@);
        },
    }
}

/// A document together with the path it belongs to.
pub struct File {
    /// Where the document was read from and will be written back to.
    pub path: String,
    /// Its parsed content.
    pub data: Data,
}

impl File {
    /// Loads a document from the bytes read at `path`, auto-detecting the
    /// format in registry order.
    pub fn load(path: String, text: &[u8]) -> (r: Result<File, UnsupportedFormat>)
        ensures
            match r {
                Ok(f) => spec_load(text@) == Some((f.data.spec_format(), f.data@)) && f.path
                    == path && wf_doc(f.data@),
                Err(_) => spec_load(text@) is None,
            },
    {
        match Data::load_auto(text) {
            Ok(data) => Ok(File { path, data }),
            Err(e) => Err(e),
        }
    }

    /// Loads a document from the bytes read at `path`, strictly as the
    /// given format, with no fallback to other formats.
    pub fn load_as(path: String, text: &[u8], format: &Format) -> (r: Result<File, ParseError>)
        ensures
            match r {
                Ok(f) => spec_parse_as(*format, text@) == Some(f.data@) && f.data.spec_format()
                    == *format && f.path == path && wf_doc(f.data@),
                Err(_) => spec_parse_as(*format, text@) is None,
            },
    {
        match Data::parse_as(text, format) {
            Ok(data) => Ok(File { path, data }),
            Err(e) => Err(e),
        }
    }

    /// Whether two documents may be merged: exactly when their formats are
    /// equal.
    pub fn compatible(&self, x: &File) -> (r: bool)
        ensures
            r == (self.data.spec_format() == x.data.spec_format()),
    {
        self.data.compatible(&x.data)
    }

    /// Merges the patch document into this one.
    pub fn apply(&mut self, patch: &File)
        ensures
            final(self).data@ == apply_model(old(self).data@, patch.data@),
            final(self).data.spec_format() == old(self).data.spec_format(),
            final(self).path == old(self).path,
            wf_doc(old(self).data@) && wf_doc(patch.data@) ==> wf_doc(final(self).data@),
    {
        self.data.apply(&patch.data);
    }

    /// Ends the document's life: serializes it under its own format and
    /// hands back the path and the bytes to write there.
    pub fn save(self) -> (r: (String, Vec<u8>))
        ensures
            r.0 == self.path,
            r.1@ == spec_serialize_as(self.data.spec_format(), self.data@),
    {
        let File { path, data } = self;
        let bytes = data.save();
        (path, bytes)
    }
}

} // verus!
