//! Catalog identifiers. Tracks and artists are both named by short strings,
//! but an identifier of one kind is never accepted in place of the other.

use vstd::prelude::*;

verus! {

/// The catalog client's error for an identifier it does not accept.
#[verifier::external_type_specification]
#[verifier::external_body]
pub struct ExIdError(rspotify::model::IdError);

/// An ASCII letter or digit.
pub open spec fn is_ascii_alphanumeric(c: char) -> bool {
    ||| ('0' as int) <= (c as int) <= ('9' as int)
    ||| ('a' as int) <= (c as int) <= ('z' as int)
    ||| ('A' as int) <= (c as int) <= ('Z' as int)
}

/// The texts that the catalog accepts as the identifier of a track or of an
/// artist: ASCII letters and digits only.
pub open spec fn is_catalog_id(text: Seq<char>) -> bool {
    forall|i: int| 0 <= i < text.len() ==> is_ascii_alphanumeric(#[trigger] text[i])
}

/// `rspotify::model::TrackId::from_id`. The catalog client accepts a text as a
/// track identifier exactly when all its characters are ASCII letters or
/// digits, and the identifier it then makes holds that text unchanged.
#[verifier::external_body]
fn track_id_text(id: &str) -> (r: Result<String, rspotify::model::IdError>)
    ensures
        r is Ok <==> is_catalog_id(id@),
        r matches Ok(text) ==> text@ == id@,
{
    match rspotify::model::TrackId::from_id(id) {
        Ok(track) => Ok(rspotify::prelude::Id::id(&track).to_owned()),
        Err(e) => Err(e),
    }
}

/// `rspotify::model::ArtistId::from_id`. The catalog client accepts a text as
/// an artist identifier exactly when all its characters are ASCII letters or
/// digits, and the identifier it then makes holds that text unchanged.
#[verifier::external_body]
fn artist_id_text(id: &str) -> (r: Result<String, rspotify::model::IdError>)
    ensures
        r is Ok <==> is_catalog_id(id@),
        r matches Ok(text) ==> text@ == id@,
{
    match rspotify::model::ArtistId::from_id(id) {
        Ok(artist) => Ok(rspotify::prelude::Id::id(&artist).to_owned()),
        Err(e) => Err(e),
    }
}

/// A text was refused as an identifier.
#[derive(Debug, Clone, Copy, PartialEq, Eq)]
pub struct InvalidId;

/// What a keyed list needs of its keys: a text that names the key, and a way
/// to copy it.
pub trait CatalogKey: Sized {
    /// The text that names this key.
    spec fn text(&self) -> Seq<char>;

    /// A second key with the same text.
    fn duplicate(&self) -> (copy: Self)
        ensures
            copy.text() == self.text(),
    ;

    /// Whether both keys have the same text.
    fn same_text(&self, other: &Self) -> (same: bool)
        ensures
            same == (self.text() == other.text()),
    ;
}

/// The identifier of a track.
#[derive(Debug, PartialEq, Eq, Hash)]
pub struct TrackId {
    id: String,
}

/// The identifier of an artist.
#[derive(Debug, PartialEq, Eq, Hash)]
pub struct ArtistId {
    id: String,
}

impl View for TrackId {
    type V = Seq<char>;

    closed spec fn view(&self) -> Seq<char> {
        self.id@
    }
}

impl DeepView for TrackId {
    type V = Seq<char>;

    open spec fn deep_view(&self) -> Seq<char> {
        self@
    }
}

impl View for ArtistId {
    type V = Seq<char>;

    closed spec fn view(&self) -> Seq<char> {
        self.id@
    }
}

impl DeepView for ArtistId {
    type V = Seq<char>;

    open spec fn deep_view(&self) -> Seq<char> {
        self@
    }
}

impl TrackId {
    /// Makes a track identifier of `id`, if the catalog accepts the text.
    pub fn from_id(id: &str) -> (r: Result<TrackId, InvalidId>)
        ensures
            r is Ok <==> is_catalog_id(id@),
            r matches Ok(track) ==> track@ == id@,
    {
        match track_id_text(id) {
            Ok(text) => Ok(TrackId { id: text }),
            Err(_) => Err(InvalidId),
        }
    }

    /// The identifier's text.
    pub fn id(&self) -> (s: &str)
        ensures
            s@ == self@,
    {
        self.id.as_str()
    }

    /// Whether both identifiers name the same track.
    pub fn same_as(&self, other: &TrackId) -> (same: bool)
        ensures
            same == (self@ == other@),
    {
        self.id == other.id
    }
}

impl ArtistId {
    /// Makes an artist identifier of `id`, if the catalog accepts the text.
    pub fn from_id(id: &str) -> (r: Result<ArtistId, InvalidId>)
        ensures
            r is Ok <==> is_catalog_id(id@),
            r matches Ok(artist) ==> artist@ == id@,
    {
        match artist_id_text(id) {
            Ok(text) => Ok(ArtistId { id: text }),
            Err(_) => Err(InvalidId),
        }
    }

    /// The identifier's text.
    pub fn id(&self) -> (s: &str)
        ensures
            s@ == self@,
    {
        self.id.as_str()
    }

    /// Whether both identifiers name the same artist.
    pub fn same_as(&self, other: &ArtistId) -> (same: bool)
        ensures
            same == (self@ == other@),
    {
        self.id == other.id
    }
}

impl Clone for TrackId {
    fn clone(&self) -> (copy: Self)
        ensures
            copy@ == self@,
    {
        TrackId { id: self.id.clone() }
    }
}

impl Clone for ArtistId {
    fn clone(&self) -> (copy: Self)
        ensures
            copy@ == self@,
    {
        ArtistId { id: self.id.clone() }
    }
}

impl CatalogKey for TrackId {
    open spec fn text(&self) -> Seq<char> {
        self@
    }

    fn duplicate(&self) -> (copy: Self) {
        self.clone()
    }

    fn same_text(&self, other: &Self) -> (same: bool) {
        self.same_as(other)
    }
}

impl CatalogKey for ArtistId {
    open spec fn text(&self) -> Seq<char> {
        self@
    }

    fn duplicate(&self) -> (copy: Self) {
        self.clone()
    }

    fn same_text(&self, other: &Self) -> (same: bool) {
        self.same_as(other)
    }
}

} // verus!
