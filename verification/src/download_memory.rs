use vstd::prelude::*;

use std::collections::HashMap;

use crate::chunk::{DownloadChunk, SongData, wf_song};

verus! {

/// The songs being assembled, by their download identifiers, together with
/// the directory finished songs are written under.
pub struct DownloadMemory {
    pub songs: HashMap<u64, SongData>,
    pub path: String,
}

/// Every stored song is sound and filed under its own identifier.
pub open spec fn wf_memory(m: &DownloadMemory) -> bool {
    forall|id: u64|
        m.songs@.dom().contains(id) ==> wf_song(&m.songs@[id]) && (#[trigger] m.songs@[id]).id
            == id
}

impl DownloadMemory {
    pub fn new(path: String) -> (r: DownloadMemory)
        ensures
            r.songs@ == Map::<u64, SongData>::empty(),
            r.path@ == path@,
            wf_memory(&r),
    {
        DownloadMemory { songs: HashMap::new(), path }
    }

    /// Files a song under its identifier, replacing any previous one.
    pub fn add_song(&mut self, song_data: SongData)
        requires
            wf_memory(old(self)),
            wf_song(&song_data),
        ensures
            final(self).songs@ == old(self).songs@.insert(song_data.id, song_data),
            final(self).path == old(self).path,
            wf_memory(final(self)),
    {
        let id = song_data.id;
        self.songs.insert(id, song_data);
    }

    /// The song filed under the identifier; the caller knows it is there.
    pub fn get_song(&self, song_id: u64) -> (r: &SongData)
        requires
            self.songs@.dom().contains(song_id),
        ensures
            *r == self.songs@[song_id],
    {
        self.songs.get(&song_id).unwrap()
    }

    /// Stores one chunk in its song; tells whether that song is complete and
    /// ready to be assembled.
    pub fn add_chunk(&mut self, chunk: DownloadChunk) -> (full: bool)
        requires
            wf_memory(old(self)),
            old(self).songs@.dom().contains(chunk.id),
            chunk.index < old(self).songs@[chunk.id].total,
        ensures
            wf_memory(final(self)),
            final(self).songs@.dom() == old(self).songs@.dom(),
            final(self).songs@[chunk.id].chunks@ == old(self).songs@[chunk.id].chunks@.update(
                chunk.index as int,
                Some(chunk.content),
            ),
            final(self).path == old(self).path,
            full == (final(self).songs@[chunk.id].filled == final(self).songs@[chunk.id].total),
    {
        let id = chunk.id;
        let mut song = self.songs.remove(&id).unwrap();
        let full = song.add_chunk(chunk);
        self.songs.insert(id, song);
        proof {
            assert(final(self).songs@.dom() =~= old(self).songs@.dom());
        }
        full
    }

    /// Unfiles a song, once its bytes are written out.
    pub fn remove_song(&mut self, song_id: u64)
        requires
            wf_memory(old(self)),
        ensures
            final(self).songs@ == old(self).songs@.remove(song_id),
            final(self).path == old(self).path,
            wf_memory(final(self)),
    {
        let _ = self.songs.remove(&song_id);
    }
}

/// The chunk contents in order, each in full.
pub open spec fn spec_full_bytes(chunks: Seq<Option<[u8; 2048]>>) -> Seq<u8>
    decreases chunks.len(),
{
    if chunks.len() == 0 {
        Seq::<u8>::empty()
    } else {
        (match chunks[0] {
            Some(c) => c@,
            None => Seq::<u8>::empty(),
        }) + spec_full_bytes(chunks.skip(1))
    }
}

/// The bytes of a finished song: every chunk in full, except that the last
/// chunk contributes its bytes only up to its trailing zero padding.
pub open spec fn spec_assembled(chunks: Seq<Option<[u8; 2048]>>) -> Seq<u8> {
    if chunks.len() == 0 {
        Seq::<u8>::empty()
    } else {
        spec_full_bytes(chunks.take(chunks.len() - 1)) + (match chunks[chunks.len() - 1] {
            Some(c) => crate::utils::trim_zeros(c@),
            None => Seq::<u8>::empty(),
        })
    }
}

/// One more chunk extends the full-byte form at its tail.
pub proof fn lemma_full_bytes_snoc(chunks: Seq<Option<[u8; 2048]>>, c: Option<[u8; 2048]>)
    ensures
        spec_full_bytes(chunks.push(c)) == spec_full_bytes(chunks) + (match c {
            Some(v) => v@,
            None => Seq::<u8>::empty(),
        }),
    decreases chunks.len(),
{
    let x = match c {
        Some(v) => v@,
        None => Seq::<u8>::empty(),
    };
    if chunks.len() == 0 {
        assert(chunks.push(c)[0] == c);
        assert(chunks.push(c).skip(1) =~= Seq::<Option<[u8; 2048]>>::empty());
        assert(spec_full_bytes(Seq::<Option<[u8; 2048]>>::empty()) == Seq::<u8>::empty());
        assert(spec_full_bytes(chunks.push(c)) == x + Seq::<u8>::empty());
        assert(x + Seq::<u8>::empty() =~= Seq::<u8>::empty() + x);
    } else {
        assert(chunks.push(c)[0] == chunks[0]);
        assert(chunks.push(c).skip(1) =~= chunks.skip(1).push(c));
        lemma_full_bytes_snoc(chunks.skip(1), c);
        let h = match chunks[0] {
            Some(v) => v@,
            None => Seq::<u8>::empty(),
        };
        assert(h + (spec_full_bytes(chunks.skip(1)) + x) =~= (h + spec_full_bytes(chunks.skip(1)))
            + x);
    }
}

/// Writes a finished song out as one byte string, trimming the zero padding
/// of its final chunk.
#[verifier::rlimit(100)]
#[verifier::spinoff_prover]
pub fn assemble_bytes(song: &SongData) -> (r: Vec<u8>)
    requires
        wf_song(song),
        song.total > 0,
        forall|i: int| 0 <= i < song.chunks@.len() ==> (#[trigger] song.chunks@[i]) is Some,
    ensures
        r@ == spec_assembled(song.chunks@),
{
    let mut out: Vec<u8> = Vec::new();
    let n = song.chunks.len();
    let last = n - 1;
    proof {
        assert(song.chunks@.take(0) =~= Seq::<Option<[u8; 2048]>>::empty());
        assert(out@ =~= spec_full_bytes(song.chunks@.take(0)));
    }
    let mut i: usize = 0;
    while i < last
        invariant
            n == song.chunks@.len(),
            last == n - 1,
            n >= 1,
            i <= last,
            forall|k: int| 0 <= k < song.chunks@.len() ==> (#[trigger] song.chunks@[k]) is Some,
            out@ == spec_full_bytes(song.chunks@.take(i as int)),
        decreases last - i,
    {
        proof {
            assert(song.chunks@.take(i + 1) =~= song.chunks@.take(i as int).push(
                song.chunks@[i as int],
            ));
            lemma_full_bytes_snoc(song.chunks@.take(i as int), song.chunks@[i as int]);
        }
        let chunk = match &song.chunks[i] {
            Some(c) => c,
            None => {
                proof {
                    assert(false);
                }
                return out;
            },
        };
        let ghost pre = out@;
        let mut k: usize = 0;
        while k < 2048
            invariant
                k <= 2048,
                out@ == pre + chunk@.take(k as int),
            decreases 2048 - k,
        {
            out.push(chunk[k]);
            proof {
                assert(out@ =~= pre + chunk@.take(k + 1));
            }
            k = k + 1;
        }
        proof {
            assert(chunk@.take(2048) =~= chunk@);
        }
        i = i + 1;
    }
    let chunk = match &song.chunks[last] {
        Some(c) => c,
        None => {
            proof {
                assert(false);
            }
            return out;
        },
    };
    let mut end: usize = 2048;
    proof {
        assert(chunk@.take(2048) =~= chunk@);
    }
    while end > 0 && chunk[end - 1] == 0u8
        invariant
            end <= 2048,
            crate::utils::trim_zeros(chunk@) == crate::utils::trim_zeros(chunk@.take(end as int)),
        decreases end,
    {
        proof {
            assert(chunk@.take(end as int).drop_last() =~= chunk@.take(end - 1));
        }
        end = end - 1;
    }
    proof {
        assert(chunk@.take(end as int).len() == 0 || chunk@.take(end as int)[end - 1] != 0);
        crate::utils::lemma_trim_zeros_id(chunk@.take(end as int));
    }
    let ghost pre = out@;
    let mut k: usize = 0;
    while k < end
        invariant
            k <= end,
            end <= 2048,
            out@ == pre + chunk@.take(k as int),
        decreases end - k,
    {
        out.push(chunk[k]);
        proof {
            assert(out@ =~= pre + chunk@.take(k + 1));
        }
        k = k + 1;
    }
    out
}

} // verus!
