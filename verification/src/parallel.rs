//! Settings for processing a large input in chunks side by side, and the
//! per-chunk collection of the elements a filter picks.

use vstd::prelude::*;
use crate::chunk::ChunkSplitter;
use crate::parser::{Event, EventType, ParserLimits};
use crate::search::{LT, GT, SLASH};

verus! {

/// How a large input is processed in chunks.
#[derive(Debug, Clone)]
pub struct ParallelConfig {
    /// Threads to use; `None` uses one per CPU.
    pub num_threads: Option<usize>,
    /// Smallest chunk, in bytes.
    pub min_chunk_size: usize,
    /// Largest chunk, in bytes.
    pub max_chunk_size: usize,
    /// Bytes shared by consecutive chunks.
    pub overlap_bytes: usize,
    /// The limits each chunk is parsed with.
    pub parser_limits: ParserLimits,
}

impl ParallelConfig {
    /// The chunk sizes can be handed to a `ChunkSplitter`.
    pub open spec fn is_valid(&self) -> bool {
        &&& self.min_chunk_size > 0
        &&& self.max_chunk_size >= self.min_chunk_size
        &&& self.overlap_bytes < self.min_chunk_size
    }
}

/// The default configuration: all CPUs, chunks of 2 to 16 MiB sharing
/// 8 KiB, and generous parser limits.
pub open spec fn default_config() -> ParallelConfig {
    ParallelConfig {
        num_threads: None,
        min_chunk_size: 0x20_0000,
        max_chunk_size: 0x100_0000,
        overlap_bytes: 0x2000,
        parser_limits: ParserLimits {
            max_depth: 256,
            max_attributes: 256,
            max_name_len: 256,
            max_attr_name_len: 512,
            max_attr_value_len: 4096,
            max_text_chunk_len: 16384,
            max_text_total_len: None,
            max_comment_chunk_len: 4096,
            max_comment_total_len: None,
            max_cdata_chunk_len: 16384,
            max_cdata_total_len: None,
            max_pi_chunk_len: 1024,
            max_pi_total_len: None,
            include_fault_payload: false,
        },
    }
}

impl Default for ParallelConfig {
    /// All CPUs, chunks of 2 to 16 MiB sharing 8 KiB, and generous limits.
    fn default() -> (r: Self)
        ensures
            r == default_config(),
            r.num_threads is None,
            r.min_chunk_size == 2 * 1024 * 1024,
            r.max_chunk_size == 16 * 1024 * 1024,
            r.overlap_bytes == 8 * 1024,
            r.parser_limits.max_depth == 256,
            r.parser_limits.max_attributes == 256,
            r.parser_limits.max_name_len == 256,
            r.parser_limits.max_attr_name_len == 512,
            r.parser_limits.max_attr_value_len == 4096,
            r.parser_limits.max_text_chunk_len == 16384,
            r.parser_limits.max_text_total_len is None,
            r.parser_limits.max_comment_chunk_len == 4096,
            r.parser_limits.max_comment_total_len is None,
            r.parser_limits.max_cdata_chunk_len == 16384,
            r.parser_limits.max_cdata_total_len is None,
            r.parser_limits.max_pi_chunk_len == 1024,
            r.parser_limits.max_pi_total_len is None,
            !r.parser_limits.include_fault_payload,
    {
        ParallelConfig {
            num_threads: None,
            min_chunk_size: 2 * 1024 * 1024,
            max_chunk_size: 16 * 1024 * 1024,
            overlap_bytes: 8 * 1024,
            parser_limits: ParserLimits {
                max_depth: 256,
                max_attributes: 256,
                max_name_len: 256,
                max_attr_name_len: 512,
                max_attr_value_len: 4096,
                max_text_chunk_len: 16384,
                max_text_total_len: None,
                max_comment_chunk_len: 4096,
                max_comment_total_len: None,
                max_cdata_chunk_len: 16384,
                max_cdata_total_len: None,
                max_pi_chunk_len: 1024,
                max_pi_total_len: None,
                include_fault_payload: false,
            },
        }
    }
}

/// Processes a large input in chunks: holds the configuration and the
/// splitter made from it.
pub struct ParallelProcessor {
    config: ParallelConfig,
    splitter: ChunkSplitter,
}

impl ParallelProcessor {
    /// The configuration in use.
    pub closed spec fn config_view(&self) -> ParallelConfig {
        self.config
    }

    /// The splitter in use.
    pub closed spec fn splitter_view(&self) -> ChunkSplitter {
        self.splitter
    }

    /// A processor with the default configuration.
    pub fn new() -> (r: Self)
        ensures
            r.config_view() == default_config(),
            r.config_view().num_threads is None,
            r.config_view().min_chunk_size == 2 * 1024 * 1024,
            r.config_view().max_chunk_size == 16 * 1024 * 1024,
            r.config_view().overlap_bytes == 8 * 1024,
            r.splitter_view().min_chunk_size == r.config_view().min_chunk_size,
            r.splitter_view().max_chunk_size == r.config_view().max_chunk_size,
            r.splitter_view().overlap_bytes == r.config_view().overlap_bytes,
    {
        let config = ParallelConfig::default();
        let splitter = ChunkSplitter::new(config.min_chunk_size, config.max_chunk_size, config.overlap_bytes);
        ParallelProcessor { config, splitter }
    }

    /// A processor with `config`, whose chunk sizes a splitter takes.
    pub fn with_config(config: ParallelConfig) -> (r: Self)
        requires
            config.is_valid(),
        ensures
            r.config_view() == config,
            r.splitter_view().min_chunk_size == config.min_chunk_size,
            r.splitter_view().max_chunk_size == config.max_chunk_size,
            r.splitter_view().overlap_bytes == config.overlap_bytes,
    {
        let splitter = ChunkSplitter::new(config.min_chunk_size, config.max_chunk_size, config.overlap_bytes);
        ParallelProcessor { config, splitter }
    }

    /// The configuration.
    pub fn config(&self) -> (r: &ParallelConfig)
        ensures
            *r == self.config_view(),
    {
        &self.config
    }

    /// The splitter.
    pub fn splitter(&self) -> (r: &ChunkSplitter)
        ensures
            *r == self.splitter_view(),
    {
        &self.splitter
    }
}

impl Default for ParallelProcessor {
    fn default() -> (r: Self)
        ensures
            r.config_view() == default_config(),
            r.splitter_view().min_chunk_size == r.config_view().min_chunk_size,
            r.splitter_view().max_chunk_size == r.config_view().max_chunk_size,
            r.splitter_view().overlap_bytes == r.config_view().overlap_bytes,
            r.config_view().num_threads is None,
            r.config_view().min_chunk_size == 2 * 1024 * 1024,
            r.config_view().max_chunk_size == 16 * 1024 * 1024,
            r.config_view().overlap_bytes == 8 * 1024,
    {
        ParallelProcessor::new()
    }
}

/// The state of collecting the elements a filter picks: the nesting depth,
/// whether an element is being collected, the bytes collected for it, and
/// the elements finished so far.
pub struct CollectState {
    pub depth: int,
    pub collecting: bool,
    pub buffer: Seq<u8>,
    pub matches: Seq<Seq<u8>>,
}

/// The state after `event`, where `accept` is the filter's verdict on a
/// start element's name at depth 0. A picked element is collected as its
/// start tag (name only), its text and the end tags inside it; it is
/// finished when the depth returns to 0.
pub open spec fn collect_step(st: CollectState, kind: EventType, data: Seq<u8>, accept: bool) -> CollectState {
    match kind {
        EventType::StartElement => {
            if st.depth == 0 && accept {
                CollectState { depth: st.depth + 1, collecting: true, buffer: seq![LT] + data + seq![GT], ..st }
            } else {
                CollectState { depth: st.depth + 1, ..st }
            }
        },
        EventType::EndElement => {
            let depth = st.depth - 1;
            if st.collecting {
                let buffer = st.buffer + seq![LT, SLASH] + data + seq![GT];
                if depth == 0 {
                    CollectState { depth, collecting: false, buffer, matches: st.matches.push(buffer) }
                } else {
                    CollectState { depth, buffer, ..st }
                }
            } else {
                CollectState { depth, ..st }
            }
        },
        EventType::Text => {
            if st.collecting {
                CollectState { buffer: st.buffer + data, ..st }
            } else {
                st
            }
        },
        _ => st,
    }
}

/// Each collected element starts with its own start tag: an accepted start
/// element at depth zero leaves exactly `<name>` written, whatever was
/// written before; and such an element holding text, once closed, adds
/// exactly `<name>text</name>` to the matches, leaving the earlier matches as
/// they were.
pub proof fn law_collect_fresh_match(st: CollectState, name: Seq<u8>, text: Seq<u8>)
    requires
        st.depth == 0,
    ensures
        collect_step(st, EventType::StartElement, name, true).buffer == seq![LT] + name + seq![GT],
        ({
            let s1 = collect_step(st, EventType::StartElement, name, true);
            let s2 = collect_step(s1, EventType::Text, text, false);
            let s3 = collect_step(s2, EventType::EndElement, name, false);
            &&& s3.matches == st.matches.push(seq![LT] + name + seq![GT] + text + seq![LT, SLASH] + name + seq![GT])
            &&& s3.depth == 0
            &&& !s3.collecting
        }),
{
}

/// Outside a collected element, text is not kept, and an element that is
/// not collected (not accepted, or not at depth zero) leaves the matches
/// and the written bytes as they were once closed again, at the same depth.
pub proof fn law_collect_outside(st: CollectState, name: Seq<u8>, text: Seq<u8>, accept: bool)
    requires
        !st.collecting,
        st.depth > 0 || !accept,
    ensures
        collect_step(st, EventType::Text, text, accept) == st,
        ({
            let s1 = collect_step(st, EventType::StartElement, name, accept);
            let s2 = collect_step(s1, EventType::EndElement, name, accept);
            s2 == st
        }),
{
}

/// Collects the elements a filter picks from one chunk's events.
pub struct MatchCollector {
    depth: i64,
    collecting: bool,
    buffer: Vec<u8>,
    matches: Vec<Vec<u8>>,
}

impl MatchCollector {
    /// The collection state.
    pub closed spec fn state(&self) -> CollectState {
        CollectState {
            depth: self.depth as int,
            collecting: self.collecting,
            buffer: self.buffer@,
            matches: self.matches.deep_view(),
        }
    }

    /// Nothing collected, at depth 0.
    pub fn new() -> (r: Self)
        ensures
            r.state() == (CollectState { depth: 0, collecting: false, buffer: Seq::empty(), matches: Seq::empty() }),
    {
        let r = MatchCollector { depth: 0, collecting: false, buffer: Vec::new(), matches: Vec::new() };
        assert(r.matches.deep_view() =~= Seq::<Seq<u8>>::empty());
        r
    }

    /// Whether the filter's verdict is needed for `event`: a start element
    /// at depth 0.
    pub fn wants_verdict(&self, event: &Event) -> (r: bool)
        ensures
            r == (event.event_type == EventType::StartElement && self.state().depth == 0),
    {
        match event.event_type {
            EventType::StartElement => self.depth == 0,
            _ => false,
        }
    }

    /// Take `event` into account; `accept` is the filter's verdict on its
    /// name, and counts only where `wants_verdict` says it is needed. The
    /// depth stays within `i64`.
    pub fn on_event(&mut self, event: &Event, accept: bool)
        requires
            i64::MIN < old(self).state().depth < i64::MAX,
        ensures
            final(self).state() == collect_step(old(self).state(), event.event_type, event.data@, accept),
    {
        let data = event.data.as_slice();
        match event.event_type {
            EventType::StartElement => {
                if self.depth == 0 && accept {
                    self.collecting = true;
                    self.buffer.clear();
                    self.buffer.push(LT);
                    append_bytes(&mut self.buffer, data);
                    self.buffer.push(GT);
                    assert(self.buffer@ =~= seq![LT] + data@ + seq![GT]);
                }
                self.depth = self.depth + 1;
            },
            EventType::EndElement => {
                self.depth = self.depth - 1;
                if self.collecting {
                    let ghost before = self.buffer@;
                    self.buffer.push(LT);
                    self.buffer.push(SLASH);
                    append_bytes(&mut self.buffer, data);
                    self.buffer.push(GT);
                    assert(self.buffer@ =~= before + seq![LT, SLASH] + data@ + seq![GT]);
                    if self.depth == 0 {
                        let mut copy: Vec<u8> = Vec::new();
                        append_bytes(&mut copy, self.buffer.as_slice());
                        assert(copy@ =~= self.buffer@);
                        let ghost old_matches = self.matches.deep_view();
                        self.matches.push(copy);
                        assert(self.matches.deep_view() =~= old_matches.push(self.buffer@)) by {
                            assert(self.matches@.last().deep_view() =~= self.buffer@);
                        }
                        self.collecting = false;
                    }
                }
            },
            EventType::Text => {
                if self.collecting {
                    append_bytes(&mut self.buffer, data);
                }
            },
            _ => {},
        }
    }

    /// The depth, in range.
    pub fn depth(&self) -> (r: i64)
        ensures
            r == self.state().depth,
    {
        self.depth
    }

    /// The finished elements, in order.
    pub fn into_matches(self) -> (r: Vec<Vec<u8>>)
        ensures
            r.deep_view() == self.state().matches,
    {
        self.matches
    }
}

/// Append the bytes of `src` to `buffer`.
fn append_bytes(buffer: &mut Vec<u8>, src: &[u8])
    ensures
        final(buffer)@ == old(buffer)@ + src@,
{
    let mut j: usize = 0;
    while j < src.len()
        invariant
            j <= src@.len(),
            buffer@ == old(buffer)@ + src@.take(j as int),
        decreases src.len() - j,
    {
        buffer.push(src[j]);
        j += 1;
        assert(buffer@ =~= old(buffer)@ + src@.take(j as int));
    }
    assert(src@.take(j as int) =~= src@);
}

} // verus!
