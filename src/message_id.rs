use vstd::prelude::*;

verus! {

/// The content address of a message or blob: a sha256 digest and whether it
/// names a blob (`&` sigil) rather than a message (`%` sigil).
#[derive(Clone, Copy, Debug, PartialEq, Eq, Hash)]
pub struct MessageId {
    pub blob: bool,
    pub digest: [u8; 32],
}

impl View for MessageId {
    type V = (bool, Seq<u8>);

    open spec fn view(&self) -> (bool, Seq<u8>) {
        (self.blob, self.digest@)
    }
}

/// The views of a sequence of identifiers.
pub open spec fn id_views(ids: Seq<MessageId>) -> Seq<(bool, Seq<u8>)> {
    ids.map_values(|id: MessageId| id@)
}

/// What the legacy text encoding decodes to, if it decodes at all: the blob
/// flag and the digest bytes.
pub uninterp spec fn legacy_id_of(text: Seq<char>) -> Option<(bool, Seq<u8>)>;

/// Relies on `ssb_multiformats::multihash::Multihash::from_legacy`: the
/// result depends on the text alone; a decoded value is a message hash
/// (`%`) or a blob hash (`&`) with a 32-byte digest.
#[verifier::external_body]
fn decode_legacy(text: &str) -> (r: Option<MessageId>)
    ensures
        match r {
            Some(id) => legacy_id_of(text@) == Some(id@),
            None => legacy_id_of(text@) is None,
        },
        r is Some ==> text@.len() > 0 && (r->0.blob <==> text@[0] == '&'),
{
    match ssb_multiformats::multihash::Multihash::from_legacy(text.as_bytes()) {
        Ok((ssb_multiformats::multihash::Multihash::Message(d), _)) => Some(MessageId { blob: false, digest: d }),
        Ok((ssb_multiformats::multihash::Multihash::Blob(d), _)) => Some(MessageId { blob: true, digest: d }),
        Err(_) => None,
    }
}

/// Reads an identifier written in the legacy text encoding (a sigil, the
/// base64 digest and the `.sha256` suffix); `None` where the text is not one.
pub fn parse_message_id(text: &str) -> (r: Option<MessageId>)
    ensures
        match r {
            Some(id) => legacy_id_of(text@) == Some(id@),
            None => legacy_id_of(text@) is None,
        },
{
    decode_legacy(text)
}

/// Whether two identifiers name the same content.
pub fn same_id(a: &MessageId, b: &MessageId) -> (r: bool)
    ensures
        r == (a@ == b@),
{
    if a.blob != b.blob {
        return false;
    }
    let mut i: usize = 0;
    while i < 32
        invariant
            i <= 32,
            forall|k: int| 0 <= k < i ==> a.digest@[k] == b.digest@[k],
        decreases 32 - i,
    {
        if a.digest[i] != b.digest[i] {
            return false;
        }
        i = i + 1;
    }
    assert(a.digest@ =~= b.digest@);
    true
}

} // verus!
