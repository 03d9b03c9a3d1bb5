//! Text extraction: the character data of an XML document, which `xml-rs`
//! reads, put together as one text.
use vstd::prelude::*;
use vstd::string::StringExecFns;
use xml::common::Position;
use xml::reader::{EventReader, XmlEvent};

verus! {

/// Where and why the reading of a document gave up, as a mathematical
/// value.
pub struct FaultView {
    pub row: u64,
    pub column: u64,
    pub message: Seq<char>,
}

/// Where and why the reading of a document gave up: row and column, both
/// counted from zero, and the reader's message.
#[derive(PartialEq, Eq, Debug)]
pub struct MarkupFault {
    pub row: u64,
    pub column: u64,
    pub message: String,
}

impl View for MarkupFault {
    type V = FaultView;

    open spec fn view(&self) -> FaultView {
        FaultView { row: self.row, column: self.column, message: self.message@ }
    }
}

/// The view of each piece: the characters of a run of character data, or
/// nothing for any other event.
pub open spec fn piece_views(pieces: Seq<Option<String>>) -> Seq<Option<Seq<char>>> {
    pieces.map_values(
        |piece: Option<String>|
            match piece {
                Some(text) => Some(text@),
                None => None,
            },
    )
}

/// What `xml-rs` reads from `bytes`: one piece for each event up to the end
/// of the document, which holds the text where the event is a run of
/// character data; or the fault at which reading gave up.
pub uninterp spec fn markup_pieces(bytes: Seq<u8>) -> Result<Seq<Option<Seq<char>>>, FaultView>;

/// Trusted: `xml::reader::EventReader::new` on `bytes`, run to its end.
/// Each event becomes a piece: the text of `XmlEvent::Characters`, nothing
/// for the other events. An error ends the reading and is handed on with
/// what `position` and `msg` say of it. The contract claims only that the
/// outcome depends on the bytes alone, and calls it [`markup_pieces`].
#[verifier::external_body]
fn read_markup(bytes: &[u8]) -> (outcome: Result<Vec<Option<String>>, MarkupFault>)
    ensures
        match outcome {
            Ok(pieces) => markup_pieces(bytes@) == Ok::<Seq<Option<Seq<char>>>, FaultView>(
                piece_views(pieces@),
            ),
            Err(fault) => markup_pieces(bytes@) == Err::<Seq<Option<Seq<char>>>, FaultView>(fault@),
        },
{
    EventReader::new(bytes).into_iter().map(|event| match event {
        Ok(XmlEvent::Characters(text)) => Ok(Some(text)),
        Ok(_) => Ok(None),
        Err(error) => Err(MarkupFault {
            row: error.position().row,
            column: error.position().column,
            message: error.msg().to_string(),
        }),
    }).collect()
}

/// The runs of character data among `pieces` put together, each followed by
/// one space.
pub open spec fn text_of(pieces: Seq<Option<Seq<char>>>) -> Seq<char>
    decreases pieces.len(),
{
    if pieces.len() == 0 {
        Seq::empty()
    } else {
        match pieces.last() {
            Some(run) => text_of(pieces.drop_last()) + run + seq![' '],
            None => text_of(pieces.drop_last()),
        }
    }
}

/// Puts the runs of character data among `pieces` together, each followed
/// by one space, so that the last word of one run and the first of the next
/// stay two terms.
pub fn join_pieces(pieces: &Vec<Option<String>>) -> (text: String)
    ensures
        text@ == text_of(piece_views(pieces@)),
{
    let ghost all = piece_views(pieces@);
    let mut text = String::new();
    let mut i: usize = 0;
    assert(all.take(0) == Seq::<Option<Seq<char>>>::empty());
    while i < pieces.len()
        invariant
            all == piece_views(pieces@),
            i <= pieces@.len(),
            text@ == text_of(all.take(i as int)),
        decreases pieces@.len() - i,
    {
        proof {
            let upto = all.take(i + 1);
            assert(upto.drop_last() == all.take(i as int));
            assert(upto.last() == all[i as int]);
        }
        match &pieces[i] {
            Some(run) => {
                let ghost before = text@;
                text.append(run.as_str());
                text.push(' ');
                assert(text@ =~= before + run@ + seq![' ']);
            },
            None => {},
        }
        i += 1;
    }
    assert(all.take(i as int) == all);
    text
}

/// Extracts the text of an XML document: its runs of character data, each
/// followed by one space. A document that the reader gives up on has no
/// text.
pub fn extract_text(bytes: &[u8]) -> (outcome: Result<String, MarkupFault>)
    ensures
        match markup_pieces(bytes@) {
            Ok(pieces) => outcome matches Ok(text) && text@ == text_of(pieces),
            Err(fault) => outcome matches Err(found) && found@ == fault,
        },
{
    match read_markup(bytes) {
        Ok(pieces) => Ok(join_pieces(&pieces)),
        Err(fault) => Err(fault),
    }
}

} // verus!
