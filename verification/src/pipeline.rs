//! Steps of the command-line pipelines (index, ask) that decide rather
//! than read, write or embed: document ids, which chunks still need an
//! embedding, and the context and question handed to the LLM.
use vstd::prelude::*;
use crate::text::{byte_len, concat2, concat3, decimal, decimal_string, has_substring, join, trimmed};
use crate::server::{ContextChunk, block_sep};
use crate::indexer::{Chunk, ChunkView, views};

verus! {

/// The id of the document stored for a chunk: `chunk_`, its file, `_` and its start.
pub open spec fn document_id_of(file_path: Seq<char>, line_start: usize) -> Seq<char> {
    "chunk_"@ + file_path + "_"@ + decimal(line_start as nat)
}

/// The id of the document stored for a chunk.
pub fn document_id(file_path: &str, line_start: usize) -> (r: String)
    ensures
        r@ == document_id_of(file_path@, line_start),
{
    concat2(concat3("chunk_", file_path, "_").as_str(), decimal_string(line_start).as_str())
}

/// Positions (in order) of the chunks whose cached embedding is missing or empty.
pub open spec fn uncached_of(cached: Seq<bool>) -> Seq<usize>
    decreases cached.len(),
{
    if cached.len() == 0 {
        seq![]
    } else {
        let rest = uncached_of(cached.drop_last());
        if !cached.last() { rest.push((cached.len() - 1) as usize) } else { rest }
    }
}

/// Positions of the chunks that still need an embedding, given whether each
/// has a non-empty cached one.
pub fn uncached_indices(cached: &Vec<bool>) -> (r: Vec<usize>)
    ensures
        r@ == uncached_of(cached@),
{
    let mut r: Vec<usize> = Vec::new();
    let mut i: usize = 0;
    while i < cached.len()
        invariant
            i <= cached@.len(),
            r@ == uncached_of(cached@.take(i as int)),
        decreases cached@.len() - i,
    {
        proof {
            assert(cached@.take(i + 1).drop_last() =~= cached@.take(i as int));
            assert(cached@.take(i + 1).last() == cached@[i as int]);
        }
        if !cached[i] {
            r.push(i);
        }
        i += 1;
    }
    proof {
        assert(cached@.take(cached@.len() as int) =~= cached@);
    }
    r
}

/// How the `ask` command answers.
#[derive(Clone, Copy, Debug, PartialEq, Eq, Structural)]
pub enum AskMode {
    /// Print the whole answer.
    Plain,
    /// Print the answer as it streams.
    Stream,
    /// Print the answer as JSON.
    Json,
    /// Stream the answer as JSON events.
    StreamJson,
}

/// The mode of the `ask` command for its `--stream` and `--json` flags.
pub fn ask_mode(stream: bool, json: bool) -> (m: AskMode)
    ensures
        m == (if json && stream {
            AskMode::StreamJson
        } else if json {
            AskMode::Json
        } else if stream {
            AskMode::Stream
        } else {
            AskMode::Plain
        }),
{
    if json && stream {
        AskMode::StreamJson
    } else if json {
        AskMode::Json
    } else if stream {
        AskMode::Stream
    } else {
        AskMode::Plain
    }
}

/// The `ask` command's block for a chunk: `[[file:line]]`, a newline, its text.
pub open spec fn ask_block(c: ContextChunk) -> Seq<char> {
    "[["@ + c.file_path@ + ":"@ + decimal(c.line_start as nat) + "]]\n"@ + c.text@
}

/// The blocks of the chunks separated by blank lines.
pub open spec fn ask_blocks(cs: Seq<ContextChunk>) -> Seq<char>
    decreases cs.len(),
{
    if cs.len() == 0 {
        seq![]
    } else if cs.len() == 1 {
        ask_block(cs[0])
    } else {
        ask_blocks(cs.drop_last()) + block_sep() + ask_block(cs.last())
    }
}

/// The `ask` command's context: the chunks' blocks, or a note that none were found.
pub open spec fn ask_context_of(cs: Seq<ContextChunk>) -> Seq<char> {
    if cs.len() == 0 { "No relevant code chunks found."@ } else { ask_blocks(cs) }
}

/// The blocks of the chunks, one per chunk, in order.
spec fn ask_block_seq(cs: Seq<ContextChunk>) -> Seq<Seq<char>> {
    Seq::new(cs.len(), |i: int| ask_block(cs[i]))
}

proof fn lemma_ask_blocks_join(cs: Seq<ContextChunk>)
    ensures
        ask_blocks(cs) == join(ask_block_seq(cs), block_sep()),
    decreases cs.len(),
{
    if cs.len() >= 2 {
        lemma_ask_blocks_join(cs.drop_last());
        assert(ask_block_seq(cs.drop_last()) =~= ask_block_seq(cs).drop_last());
    }
}

/// With chunks retrieved, the `ask` context is every chunk's block in order,
/// `[[file:line]]`, a newline and the chunk's text, joined by blank lines.
pub proof fn lemma_ask_context_joins_all_blocks(cs: Seq<ContextChunk>)
    requires
        cs.len() > 0,
    ensures
        ask_context_of(cs) == join(
            Seq::new(
                cs.len(),
                |i: int|
                    "[["@ + cs[i].file_path@ + ":"@ + decimal(cs[i].line_start as nat) + "]]\n"@ + cs[i].text@,
            ),
            seq!['\n', '\n'],
        ),
{
    lemma_ask_blocks_join(cs);
    assert(ask_block_seq(cs) =~= Seq::new(
        cs.len(),
        |i: int| "[["@ + cs[i].file_path@ + ":"@ + decimal(cs[i].line_start as nat) + "]]\n"@ + cs[i].text@,
    ));
}

/// Every retrieved chunk reaches the LLM: its block, `[[file:line]]`, a
/// newline and the chunk's text, stands in the `ask` context.
pub proof fn lemma_ask_context_holds_every_chunk(cs: Seq<ContextChunk>, i: int)
    requires
        0 <= i < cs.len(),
    ensures
        has_substring(
            ask_context_of(cs),
            "[["@ + cs[i].file_path@ + ":"@ + decimal(cs[i].line_start as nat) + "]]\n"@ + cs[i].text@,
        ),
{
    lemma_ask_blocks_join(cs);
    crate::text::lemma_join_holds_each_part(ask_block_seq(cs), block_sep(), i);
}

/// The context the `ask` command hands to the LLM.
pub fn ask_context(chunks: &Vec<ContextChunk>) -> (r: String)
    ensures
        r@ == ask_context_of(chunks@),
{
    if chunks.len() == 0 {
        return "No relevant code chunks found.".to_owned();
    }
    let mut out = String::new();
    let mut i: usize = 0;
    while i < chunks.len()
        invariant
            i <= chunks@.len(),
            out@ == ask_blocks(chunks@.take(i as int)),
        decreases chunks@.len() - i,
    {
        proof {
            assert(chunks@.take(i + 1).drop_last() =~= chunks@.take(i as int));
            assert(chunks@.take(i + 1).last() == chunks@[i as int]);
        }
        let c = &chunks[i];
        let head = concat3("[[", c.file_path.as_str(), ":");
        let head = concat3(head.as_str(), decimal_string(c.line_start).as_str(), "]]\n");
        let block = concat2(head.as_str(), c.text.as_str());
        if i == 0 {
            out = block;
            proof {
                assert(chunks@.take(1) =~= seq![chunks@[0]]);
            }
        } else {
            out = concat3(out.as_str(), "\n\n", block.as_str());
            proof {
                reveal_strlit("\n\n");
                assert("\n\n"@ =~= block_sep());
            }
        }
        i += 1;
    }
    proof {
        assert(chunks@.take(chunks@.len() as int) =~= chunks@);
    }
    out
}

/// Chunks worth embedding for in-memory retrieval: a text of at least four
/// bytes once trimmed.
pub open spec fn embeddable(c: ChunkView) -> bool {
    c.text.len() > 0 && (byte_len(trimmed(c.text)) as usize) >= 4
}

/// Positions (in order) of the embeddable chunks.
pub open spec fn embeddable_of(cs: Seq<ChunkView>) -> Seq<usize>
    decreases cs.len(),
{
    if cs.len() == 0 {
        seq![]
    } else {
        let rest = embeddable_of(cs.drop_last());
        if embeddable(cs.last()) { rest.push((cs.len() - 1) as usize) } else { rest }
    }
}

/// Positions of the chunks worth embedding for in-memory retrieval.
pub fn embeddable_chunks(chunks: &Vec<Chunk>) -> (r: Vec<usize>)
    ensures
        r@ == embeddable_of(views(chunks@)),
{
    let ghost cs = views(chunks@);
    let mut r: Vec<usize> = Vec::new();
    let mut i: usize = 0;
    while i < chunks.len()
        invariant
            cs == views(chunks@),
            i <= chunks@.len(),
            r@ == embeddable_of(cs.take(i as int)),
        decreases chunks@.len() - i,
    {
        proof {
            assert(cs.take(i + 1).drop_last() =~= cs.take(i as int));
            assert(cs.take(i + 1).last() == chunks@[i as int]@);
        }
        let text = crate::text::chars_of(chunks[i].text.as_str());
        if text.len() > 0 {
            let t = crate::text::trim_chars(&text);
            let trimmed_text = crate::text::string_of(t.as_slice());
            if trimmed_text.as_str().len() >= 4 {
                r.push(i);
            }
        }
        i += 1;
    }
    proof {
        assert(cs.take(cs.len() as int) =~= cs);
    }
    r
}

} // verus!
