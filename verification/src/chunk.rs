use vstd::prelude::*;

verus! {

/// One fixed-size piece of a file in transfer, addressed by the song it
/// belongs to and its position.
pub struct DownloadChunk {
    pub id: u64,
    pub content: [u8; 2048],
    pub index: u16,
}

impl DownloadChunk {
    pub fn new(id: u64, content: [u8; 2048], index: u16) -> (r: DownloadChunk)
        ensures
            r.id == id,
            r.content == content,
            r.index == index,
    {
        DownloadChunk { id, content, index }
    }
}

/// Where a finished download should land and how large it is.
#[derive(Debug)]
pub struct DownloadInfo {
    pub path: String,
    pub size: u16,
}

/// A song being assembled from chunks: the slots for its pieces and a count
/// of how many have arrived.
pub struct SongData {
    pub id: u64,
    pub chunks: Vec<Option<[u8; 2048]>>,
    pub filled: u16,
    pub total: u16,
    pub artist: String,
    pub album: String,
    pub filename: String,
}

/// How many slots hold a chunk already.
pub open spec fn filled_count(s: Seq<Option<[u8; 2048]>>) -> int
    decreases s.len(),
{
    if s.len() == 0 {
        0
    } else {
        (if s[0] is Some {
            1int
        } else {
            0int
        }) + filled_count(s.skip(1))
    }
}

/// The song's slot vector matches its declared size and its fill count.
pub open spec fn wf_song(s: &SongData) -> bool {
    s.chunks@.len() == s.total && s.filled == filled_count(s.chunks@)
}

/// Replacing one slot moves the fill count by what changed at that slot.
pub proof fn lemma_filled_count_update(s: Seq<Option<[u8; 2048]>>, i: int, v: [u8; 2048])
    requires
        0 <= i < s.len(),
    ensures
        filled_count(s.update(i, Some(v))) == filled_count(s) + (if s[i] is Some {
            0int
        } else {
            1int
        }),
    decreases s.len(),
{
    if i == 0 {
        assert(s.update(0, Some(v))[0] == Some(v));
        assert(s.update(0, Some(v)).skip(1) =~= s.skip(1));
    } else {
        assert(s.update(i, Some(v))[0] == s[0]);
        assert(s.update(i, Some(v)).skip(1) =~= s.skip(1).update(i - 1, Some(v)));
        lemma_filled_count_update(s.skip(1), i - 1, v);
    }
}

/// The fill count never exceeds the slot count.
pub proof fn lemma_filled_count_le(s: Seq<Option<[u8; 2048]>>)
    ensures
        0 <= filled_count(s) <= s.len(),
    decreases s.len(),
{
    if s.len() > 0 {
        lemma_filled_count_le(s.skip(1));
    }
}

impl SongData {
    /// A song of `total` chunks, none of which has arrived yet.
    pub fn new(id: u64, total: u16, artist: String, album: String, filename: String) -> (r:
        SongData)
        ensures
            r.id == id,
            r.total == total,
            r.filled == 0,
            wf_song(&r),
    {
        let mut v: Vec<Option<[u8; 2048]>> = Vec::new();
        let mut i: u16 = 0;
        while i < total
            invariant
                i <= total,
                v@.len() == i,
                filled_count(v@) == 0,
            decreases total - i,
        {
            let ghost pre = v@;
            v.push(None);
            proof {
                lemma_filled_count_push_none(pre);
            }
            i = i + 1;
        }
        SongData { id, chunks: v, filled: 0, total, artist, album, filename }
    }

    /// Stores one chunk in its slot; tells whether the song is now complete.
    /// A chunk that lands on a filled slot replaces it without recounting.
    pub fn add_chunk(&mut self, chunk: DownloadChunk) -> (full: bool)
        requires
            wf_song(old(self)),
            chunk.index < old(self).total,
        ensures
            wf_song(final(self)),
            final(self).chunks@ == old(self).chunks@.update(
                chunk.index as int,
                Some(chunk.content),
            ),
            final(self).total == old(self).total,
            final(self).id == old(self).id,
            full == (final(self).filled == final(self).total),
    {
        proof {
            lemma_filled_count_le(self.chunks@);
            lemma_filled_count_update(self.chunks@, chunk.index as int, chunk.content);
            lemma_filled_count_le(self.chunks@.update(chunk.index as int, Some(chunk.content)));
        }
        let was_empty = match self.chunks[chunk.index as usize] {
            Some(_) => false,
            None => true,
        };
        if was_empty {
            self.filled = self.filled + 1;
        }
        self.chunks.set(chunk.index as usize, Some(chunk.content));
        self.filled == self.total
    }
}

/// An empty slot at the tail adds nothing to the fill count.
pub proof fn lemma_filled_count_push_none(s: Seq<Option<[u8; 2048]>>)
    ensures
        filled_count(s.push(None)) == filled_count(s),
    decreases s.len(),
{
    if s.len() == 0 {
        assert(s.push(None)[0] is None);
        assert(s.push(None).skip(1) =~= s);
    } else {
        assert(s.push(None)[0] == s[0]);
        assert(s.push(None).skip(1) =~= s.skip(1).push(None));
        lemma_filled_count_push_none(s.skip(1));
    }
}

} // verus!
