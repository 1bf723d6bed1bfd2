use vstd::prelude::*;
use vstd::utf8::{decode_utf8, encode_utf8, encode_utf8_decode_utf8, valid_utf8};
use crate::coerce::{coerce, coerce_text};
use crate::schema::{lookup_spec, Schema, SchemaModel};
use crate::value::{
    canonical_name, canonical_of, has_key, index_of, is_array_name, lemma_index_of, set_slot,
    tree_insert, File, Slot, SlotModel, TreeModel, Value, ValueModel, ValueTree,
};

verus! {

/// serde_json's error type, carried unopened in `MultipartError::ParseError`.
#[verifier::external_type_specification]
#[verifier::external_body]
pub struct ExJsonError(serde_json::Error);

/// Error type for multipart forms.
pub enum MultipartError {
    /// The decoded value tree did not fit the record type.
    ParseError(serde_json::Error),
    /// A file field went over its declared maximum size.
    FileSizeError { field: String, limit: usize },
}

/// Extractor result: the record decoded from a multipart form.
pub struct Multipart<T>(pub T);

impl<T> Multipart<T> {
    /// The decoded record.
    pub fn into_inner(self) -> (r: T)
        ensures
            r == self.0,
    {
        self.0
    }
}

/// What the decoder does with a part that has just begun.
pub enum PartAction {
    /// Drop the part: it has no name, or its field is not in the schema.
    Skip,
    /// Stream the part's chunks into `file_chunk`, then call `end_file`.
    ReadFile,
    /// Read one chunk attempt and hand it to `scalar_chunk`.
    ReadScalar,
}

/// What follows a file chunk.
pub enum ChunkOutcome {
    /// The chunk was taken; read the next one.
    Continue,
    /// The part is over (a chunk failed to arrive); go on with the next part.
    PartDone,
    /// Stop reading the request: the decode has failed.
    Abort(MultipartError),
}

/// A file part being streamed.
pub struct PendingFile {
    pub field_name: String,
    pub field_name_formatted: String,
    pub content_type: String,
    pub filename: String,
    pub limit: Option<usize>,
    pub bytes: Vec<u8>,
}

/// Where the decoder stands in the part stream.
pub enum Stage {
    BetweenParts,
    InFile(PendingFile),
    InScalar { field_name: String, field_name_formatted: String },
}

/// The streaming decode engine for one request.
pub struct Decoder {
    pub schema: Schema,
    pub tree: ValueTree,
    pub stage: Stage,
}

/// One guarded step: the accumulated bytes with the chunk appended, or
/// `None` when that would go over the limit.
pub open spec fn guard_step(acc: Seq<u8>, chunk: Seq<u8>, limit: Option<usize>) -> Option<Seq<u8>> {
    match limit {
        Some(l) => if acc.len() + chunk.len() > l {
            None
        } else {
            Some(acc + chunk)
        },
        None => Some(acc + chunk),
    }
}

/// A part of the stream held in memory: its name, file name, content type,
/// and its chunks in order, each one that arrived or one that failed.
pub struct Part {
    pub name: Option<String>,
    pub filename: Option<String>,
    pub content_type: String,
    pub chunks: Vec<Result<Vec<u8>, ()>>,
}

/// How a file part's chunks end.
pub enum FileRun {
    /// All chunks arrived within the limit; their concatenation.
    Complete(Seq<u8>),
    /// A chunk failed to arrive before the limit was crossed.
    ChunkFailed,
    /// A chunk would have brought the part over its limit.
    TooLarge,
}

pub open spec fn chunks_view(c: Seq<Result<Vec<u8>, ()>>) -> Seq<Option<Seq<u8>>> {
    c.map_values(|r: Result<Vec<u8>, ()>| match r {
        Ok(b) => Some(b@),
        Err(_) => None,
    })
}

/// The guard run over a file part's chunks (`None` for one that failed),
/// stopping at the first chunk that fails or goes over the limit.
pub open spec fn file_run(chunks: Seq<Option<Seq<u8>>>, limit: Option<usize>) -> FileRun
    decreases chunks.len(),
{
    if chunks.len() == 0 {
        FileRun::Complete(Seq::empty())
    } else {
        match file_run(chunks.drop_last(), limit) {
            FileRun::Complete(acc) => match chunks.last() {
                Some(b) => match guard_step(acc, b, limit) {
                    Some(nb) => FileRun::Complete(nb),
                    None => FileRun::TooLarge,
                },
                None => FileRun::ChunkFailed,
            },
            other => other,
        }
    }
}

pub open spec fn all_arrived(chunks: Seq<Option<Seq<u8>>>) -> bool {
    forall|i: int| 0 <= i < chunks.len() ==> (#[trigger] chunks[i]) is Some
}

/// The chunks concatenated in order.
pub open spec fn concat_chunks(chunks: Seq<Option<Seq<u8>>>) -> Seq<u8>
    decreases chunks.len(),
{
    if chunks.len() == 0 {
        Seq::empty()
    } else {
        concat_chunks(chunks.drop_last()) + chunks.last().unwrap()
    }
}

/// A file part whose chunks all arrive is assembled as the exact
/// concatenation of its chunks when their total stays within the limit, and
/// fails as too large when it goes over.
pub proof fn lemma_file_guard(chunks: Seq<Option<Seq<u8>>>, limit: Option<usize>)
    requires
        all_arrived(chunks),
    ensures
        (limit matches Some(l) ==> concat_chunks(chunks).len() <= l) ==> file_run(chunks, limit)
            == FileRun::Complete(concat_chunks(chunks)),
        (limit matches Some(l) && concat_chunks(chunks).len() > l) ==> file_run(chunks, limit)
            is TooLarge,
    decreases chunks.len(),
{
    if chunks.len() > 0 {
        let pre = chunks.drop_last();
        assert(all_arrived(pre)) by {
            assert forall|i: int| 0 <= i < pre.len() implies (#[trigger] pre[i]) is Some by {
                assert(pre[i] == chunks[i]);
            }
        }
        assert(chunks[chunks.len() - 1] is Some);
        lemma_file_guard(pre, limit);
    }
}

/// Once a file part has failed or gone over its limit, later chunks do not
/// change the outcome.
proof fn lemma_file_run_settled(chunks: Seq<Option<Seq<u8>>>, limit: Option<usize>, j: int, k: int)
    requires
        0 <= j <= k <= chunks.len(),
        !(file_run(chunks.subrange(0, j), limit) is Complete),
    ensures
        file_run(chunks.subrange(0, k), limit) == file_run(chunks.subrange(0, j), limit),
    decreases k - j,
{
    if k > j {
        lemma_file_run_settled(chunks, limit, j, k - 1);
        assert(chunks.subrange(0, k).drop_last() =~= chunks.subrange(0, k - 1));
    }
}

/// The first chunk attempt of a scalar part.
pub open spec fn first_attempt(c: Seq<Result<Vec<u8>, ()>>) -> Option<Result<Seq<u8>, ()>> {
    if c.len() == 0 {
        None
    } else {
        match c[0] {
            Ok(b) => Some(Ok(b@)),
            Err(e) => Some(Err(e)),
        }
    }
}

/// One part folded into the tree, or the field and limit that it broke.
pub open spec fn step_part(schema: SchemaModel, t: TreeModel, p: Part) -> Result<TreeModel, (Seq<char>, usize)> {
    match p.name {
        None => Ok(t),
        Some(n) => {
            let c = canonical_of(n@);
            if !has_key(schema, c) {
                Ok(t)
            } else {
                match p.filename {
                    Some(f) => {
                        let limit = lookup_spec(schema, c);
                        match file_run(chunks_view(p.chunks@), limit) {
                            FileRun::Complete(b) => Ok(tree_insert(
                                t,
                                n@,
                                ValueModel::File { content_type: p.content_type@, name: f@, bytes: b },
                            )),
                            FileRun::ChunkFailed => Ok(set_slot(t, c, SlotModel::Single(ValueModel::Null))),
                            FileRun::TooLarge => Err((n@, limit.unwrap())),
                        }
                    },
                    None => Ok(tree_insert(t, n@, scalar_value(first_attempt(p.chunks@)))),
                }
            }
        },
    }
}

/// What a file part that ran as `run` makes of the tree.
pub open spec fn file_outcome(t: TreeModel, p: PendingFile, run: FileRun) -> Result<TreeModel, (Seq<char>, usize)> {
    match run {
        FileRun::Complete(b) => Ok(tree_insert(
            t,
            p.field_name@,
            ValueModel::File { content_type: p.content_type@, name: p.filename@, bytes: b },
        )),
        FileRun::ChunkFailed => Ok(set_slot(t, p.field_name_formatted@, SlotModel::Single(ValueModel::Null))),
        FileRun::TooLarge => Err((p.field_name@, p.limit.unwrap())),
    }
}

/// The decode of a whole part stream: the parts folded in order into an
/// empty tree, stopping at the first part that breaks its limit.
pub open spec fn decode_spec(schema: SchemaModel, parts: Seq<Part>) -> Result<TreeModel, (Seq<char>, usize)>
    decreases parts.len(),
{
    if parts.len() == 0 {
        Ok(Seq::empty())
    } else {
        match decode_spec(schema, parts.drop_last()) {
            Ok(t) => step_part(schema, t, parts.last()),
            Err(e) => Err(e),
        }
    }
}

/// The value of a scalar part from its one chunk attempt: the coerced text,
/// or null when no chunk came, it failed, or it is not valid UTF-8.
pub open spec fn scalar_value(chunk: Option<Result<Seq<u8>, ()>>) -> ValueModel {
    match chunk {
        Some(Ok(b)) => if valid_utf8(b) {
            coerce_text(decode_utf8(b))
        } else {
            ValueModel::Null
        },
        _ => ValueModel::Null,
    }
}

pub open spec fn chunk_view(c: Option<Result<Vec<u8>, ()>>) -> Option<Result<Seq<u8>, ()>> {
    match c {
        Some(Ok(b)) => Some(Ok(b@)),
        Some(Err(e)) => Some(Err(e)),
        None => None,
    }
}

/// Relies on String::from_utf8: it succeeds exactly on valid UTF-8, with the
/// text that the bytes encode.
#[verifier::external_body]
fn text_from_utf8(b: Vec<u8>) -> (r: Option<String>)
    ensures
        r is Some <==> valid_utf8(b@),
        r matches Some(s) ==> encode_utf8(s@) == b@,
{
    String::from_utf8(b).ok()
}

impl Decoder {
    pub open spec fn wf(&self) -> bool {
        match &self.stage {
            Stage::BetweenParts => true,
            Stage::InFile(p) => {
                &&& p.field_name_formatted@ == canonical_of(p.field_name@)
                &&& p.limit == lookup_spec(self.schema@, p.field_name_formatted@)
                &&& (p.limit matches Some(l) ==> p.bytes@.len() <= l)
            },
            Stage::InScalar { field_name, field_name_formatted } => field_name_formatted@
                == canonical_of(field_name@),
        }
    }

    /// A decoder for one request, with an empty tree.
    pub fn new(schema: Schema) -> (r: Decoder)
        ensures
            r.wf(),
            r.schema == schema,
            r.stage is BetweenParts,
            r.tree@ == Seq::<(Seq<char>, SlotModel)>::empty(),
    {
        Decoder { schema, tree: ValueTree::new(), stage: Stage::BetweenParts }
    }

    /// Starts a part with the given name, file name and content type. A part
    /// without a name, or whose canonical name is not in the schema, is
    /// skipped; a part with a file name is a file, any other a scalar.
    pub fn begin_part(&mut self, name: Option<String>, filename: Option<String>, content_type: String) -> (r: PartAction)
        requires
            old(self).wf(),
            old(self).stage is BetweenParts,
        ensures
            final(self).wf(),
            final(self).schema == old(self).schema,
            final(self).tree == old(self).tree,
            match name {
                None => r is Skip && final(self).stage is BetweenParts,
                Some(n) => {
                    let c = canonical_of(n@);
                    if !has_key(old(self).schema@, c) {
                        r is Skip && final(self).stage is BetweenParts
                    } else {
                        match filename {
                            Some(f) => r is ReadFile && (final(self).stage matches Stage::InFile(p) && p.field_name@
                                == n@ && p.content_type@ == content_type@ && p.filename@ == f@
                                && p.limit == lookup_spec(old(self).schema@, c) && p.bytes@.len() == 0),
                            None => r is ReadScalar && (final(self).stage matches Stage::InScalar {
                                field_name,
                                ..
                            } && field_name@ == n@),
                        }
                    }
                },
            },
    {
        let field_name = match name {
            Some(n) => n,
            None => return PartAction::Skip,
        };
        let field_name_formatted = canonical_name(&field_name);
        if !self.schema.contains(&field_name_formatted) {
            return PartAction::Skip;
        }
        match filename {
            Some(f) => {
                let limit = self.schema.lookup(&field_name_formatted);
                self.stage = Stage::InFile(PendingFile {
                    field_name,
                    field_name_formatted,
                    content_type,
                    filename: f,
                    limit,
                    bytes: Vec::new(),
                });
                PartAction::ReadFile
            },
            None => {
                self.stage = Stage::InScalar { field_name, field_name_formatted };
                PartAction::ReadScalar
            },
        }
    }

    /// Takes the next chunk of the file part. A chunk that would bring the
    /// part over its limit aborts the decode before any of it is kept; a
    /// chunk that failed to arrive records the field as null and ends the
    /// part.
    pub fn file_chunk(&mut self, chunk: Result<Vec<u8>, ()>) -> (r: ChunkOutcome)
        requires
            old(self).wf(),
            old(self).stage is InFile,
        ensures
            final(self).wf(),
            final(self).schema == old(self).schema,
            ({
                let p = old(self).stage->InFile_0;
                match chunk {
                    Err(_) => r is PartDone && final(self).stage is BetweenParts && final(self).tree@
                        == set_slot(old(self).tree@, p.field_name_formatted@, SlotModel::Single(ValueModel::Null)),
                    Ok(b) => match guard_step(p.bytes@, b@, p.limit) {
                        Some(nb) => r is Continue && final(self).tree == old(self).tree
                            && (final(self).stage matches Stage::InFile(q) && q.bytes@ == nb
                            && q.field_name == p.field_name && q.field_name_formatted == p.field_name_formatted
                            && q.content_type == p.content_type && q.filename == p.filename
                            && q.limit == p.limit),
                        None => final(self).tree == old(self).tree && final(self).stage is BetweenParts
                            && (r matches ChunkOutcome::Abort(MultipartError::FileSizeError { field, limit })
                            && field@ == p.field_name@ && p.limit == Some(limit)),
                    },
                }
            }),
    {
        let mut stage = Stage::BetweenParts;
        std::mem::swap(&mut self.stage, &mut stage);
        let mut p = match stage {
            Stage::InFile(p) => p,
            _ => {
                return ChunkOutcome::PartDone;
            },
        };
        match chunk {
            Err(_) => {
                self.tree.set(p.field_name_formatted, Slot::Single(Value::Null));
                ChunkOutcome::PartDone
            },
            Ok(b) => {
                if let Some(max_size) = p.limit {
                    if b.len() > max_size - p.bytes.len() {
                        return ChunkOutcome::Abort(
                            MultipartError::FileSizeError { field: p.field_name, limit: max_size },
                        );
                    }
                }
                let ghost before = p.bytes@;
                let mut b = b;
                p.bytes.append(&mut b);
                assert(p.bytes@ == before + chunk->Ok_0@);
                self.stage = Stage::InFile(p);
                ChunkOutcome::Continue
            },
        }
    }

    /// Ends the file part: its field takes the file value, with all chunks
    /// concatenated.
    pub fn end_file(&mut self)
        requires
            old(self).wf(),
            old(self).stage is InFile,
        ensures
            final(self).wf(),
            final(self).schema == old(self).schema,
            final(self).stage is BetweenParts,
            ({
                let p = old(self).stage->InFile_0;
                final(self).tree@ == tree_insert(
                    old(self).tree@,
                    p.field_name@,
                    ValueModel::File { content_type: p.content_type@, name: p.filename@, bytes: p.bytes@ },
                )
            }),
    {
        let mut stage = Stage::BetweenParts;
        std::mem::swap(&mut self.stage, &mut stage);
        if let Stage::InFile(p) = stage {
            let file = File { content_type: p.content_type, name: p.filename, bytes: p.bytes };
            self.tree.insert(&p.field_name, &p.field_name_formatted, Value::File(file));
        }
    }

    /// Ends the scalar part with its one chunk attempt (`None` when the part
    /// held nothing): its field takes the coerced value, or null.
    pub fn scalar_chunk(&mut self, chunk: Option<Result<Vec<u8>, ()>>)
        requires
            old(self).wf(),
            old(self).stage is InScalar,
        ensures
            final(self).wf(),
            final(self).schema == old(self).schema,
            final(self).stage is BetweenParts,
            final(self).tree@ == tree_insert(
                old(self).tree@,
                old(self).stage->field_name@,
                scalar_value(chunk_view(chunk)),
            ),
    {
        let ghost cv = chunk_view(chunk);
        let mut stage = Stage::BetweenParts;
        std::mem::swap(&mut self.stage, &mut stage);
        if let Stage::InScalar { field_name, field_name_formatted } = stage {
            let value = match chunk {
                Some(Ok(b)) => match text_from_utf8(b) {
                    Some(s) => {
                        proof {
                            encode_utf8_decode_utf8(s@);
                        }
                        coerce(s.as_str())
                    },
                    None => Value::Null,
                },
                _ => Value::Null,
            };
            assert(value@ == scalar_value(cv));
            self.tree.insert(&field_name, &field_name_formatted, value);
        }
    }

    /// Runs one whole part through the decoder.
    pub fn decode_part(&mut self, part: Part) -> (r: Result<(), MultipartError>)
        requires
            old(self).wf(),
            old(self).stage is BetweenParts,
        ensures
            final(self).wf(),
            final(self).schema == old(self).schema,
            final(self).stage is BetweenParts,
            match step_part(old(self).schema@, old(self).tree@, part) {
                Ok(t) => r is Ok && final(self).tree@ == t,
                Err((f, l)) => r matches Err(MultipartError::FileSizeError { field, limit }) && field@
                    == f && limit == l,
            },
    {
        let ghost whole = part;
        let ghost cv = chunks_view(part.chunks@);
        let Part { name, filename, content_type, chunks } = part;
        let mut chunks = chunks;
        match self.begin_part(name, filename, content_type) {
            PartAction::Skip => Ok(()),
            PartAction::ReadScalar => {
                let c = if chunks.len() > 0 {
                    Some(chunks.remove(0))
                } else {
                    None
                };
                assert(chunk_view(c) == first_attempt(whole.chunks@));
                self.scalar_chunk(c);
                Ok(())
            },
            PartAction::ReadFile => {
                let ghost p0 = self.stage->InFile_0;
                let ghost t0 = self.tree;
                let ghost total = cv.len();
                assert(chunks@.len() == chunks.len());
                let mut j: usize = 0;
                assert(cv.subrange(0, 0) =~= Seq::<Option<Seq<u8>>>::empty());
                assert(p0.bytes@ =~= Seq::<u8>::empty());
                assert(chunks_view(chunks@) =~= cv.subrange(0, total as int));
                assert(whole.name is Some && whole.filename is Some);
                assert(file_outcome(old(self).tree@, p0, file_run(cv, p0.limit)) == step_part(
                    old(self).schema@,
                    old(self).tree@,
                    whole,
                ));
                while chunks.len() > 0
                    invariant
                        whole == part,
                        total <= usize::MAX,
                        file_outcome(old(self).tree@, p0, file_run(cv, p0.limit)) == step_part(
                            old(self).schema@,
                            old(self).tree@,
                            whole,
                        ),
                        self.wf(),
                        self.schema == old(self).schema,
                        self.tree == t0,
                        t0 == old(self).tree,
                        j <= total,
                        total == cv.len(),
                        chunks_view(chunks@) == cv.subrange(j as int, total as int),
                        self.stage matches Stage::InFile(q) && q.field_name == p0.field_name
                            && q.field_name_formatted == p0.field_name_formatted
                            && q.content_type == p0.content_type && q.filename == p0.filename
                            && q.limit == p0.limit && file_run(cv.subrange(0, j as int), q.limit)
                            == FileRun::Complete(q.bytes@),
                    decreases chunks@.len(),
                {
                    assert(chunks_view(chunks@).len() == chunks@.len());
                    assert(j < total);
                    let ghost rest = chunks@;
                    let c = chunks.remove(0);
                    assert(chunks@ =~= rest.subrange(1, rest.len() as int));
                    assert(chunks_view(rest)[0] == cv.subrange(j as int, total as int)[0]);
                    assert(chunks_view(chunks@) =~= cv.subrange(j + 1, total as int)) by {
                        assert forall|x: int| 0 <= x < chunks@.len() implies chunks_view(chunks@)[x]
                            == cv.subrange(j + 1, total as int)[x] by {
                            assert(chunks_view(rest)[x + 1] == cv.subrange(j as int, total as int)[x + 1]);
                        }
                    }
                    assert(cv.subrange(0, j + 1).drop_last() =~= cv.subrange(0, j as int));
                    assert(cv[j as int] == match c { Ok(b) => Some(b@), Err(_) => None::<Seq<u8>> });
                    match self.file_chunk(c) {
                        ChunkOutcome::Continue => {},
                        ChunkOutcome::PartDone => {
                            proof {
                                assert(cv.subrange(0, j + 1).last() == cv[j as int]);
                                assert(file_run(cv.subrange(0, j + 1), p0.limit) is ChunkFailed);
                                lemma_file_run_settled(cv, p0.limit, j + 1, total as int);
                                assert(cv.subrange(0, total as int) =~= cv);
                                assert(file_run(cv, p0.limit) is ChunkFailed);
                            }
                            return Ok(());
                        },
                        ChunkOutcome::Abort(e) => {
                            proof {
                                assert(cv.subrange(0, j + 1).last() == cv[j as int]);
                                assert(file_run(cv.subrange(0, j + 1), p0.limit) is TooLarge);
                                lemma_file_run_settled(cv, p0.limit, j + 1, total as int);
                                assert(cv.subrange(0, total as int) =~= cv);
                                assert(file_run(cv, p0.limit) is TooLarge);
                            }
                            return Err(e);
                        },
                    }
                    j = j + 1;
                }
                assert(cv.subrange(0, j as int) =~= cv);
                self.end_file();
                Ok(())
            },
        }
    }

    /// The tree decoded so far.
    pub fn tree(&self) -> (r: &ValueTree)
        ensures
            r == &self.tree,
    {
        &self.tree
    }

    /// Ends the decode, handing back the tree.
    pub fn finish(self) -> (r: ValueTree)
        ensures
            r == self.tree,
    {
        self.tree
    }
}

/// Decodes a whole part stream held in memory: the tree of all parts, or
/// the size error of the first file part that goes over its limit, with no
/// later part read.
pub fn decode(schema: Schema, parts: Vec<Part>) -> (r: Result<ValueTree, MultipartError>)
    ensures
        match decode_spec(schema@, parts@) {
            Ok(t) => r matches Ok(tree) && tree@ == t,
            Err((f, l)) => r matches Err(MultipartError::FileSizeError { field, limit }) && field@ == f
                && limit == l,
        },
{
    let ghost all = parts@;
    let ghost sm = schema@;
    assert(parts@.len() == parts.len());
    let mut decoder = Decoder::new(schema);
    let mut rest = parts;
    let mut i: usize = 0;
    assert(all.subrange(0, 0) =~= Seq::<Part>::empty());
    assert(rest@ =~= all.subrange(0, all.len() as int));
    while rest.len() > 0
        invariant
            decoder.wf(),
            decoder.schema@ == sm,
            decoder.stage is BetweenParts,
            i <= all.len(),
            all.len() <= usize::MAX,
            all == parts@,
            sm == schema@,
            rest@ == all.subrange(i as int, all.len() as int),
            decode_spec(sm, all.subrange(0, i as int)) == Ok::<TreeModel, (Seq<char>, usize)>(decoder.tree@),
        decreases rest@.len(),
    {
        assert(i < all.len());
        let part = rest.remove(0);
        assert(rest@ =~= all.subrange(i + 1, all.len() as int));
        assert(all.subrange(0, i + 1).drop_last() =~= all.subrange(0, i as int));
        assert(part == all[i as int]);
        let ghost decoder_tree_before = decoder.tree@;
        let ghost part_ghost = part;
        match decoder.decode_part(part) {
            Ok(()) => {},
            Err(e) => {
                proof {
                    let prev = all.subrange(0, i as int);
                    assert(decode_spec(sm, all.subrange(0, i + 1)) == step_part(sm, decoder_tree_before, part_ghost));
                    lemma_decode_settled(sm, all, i + 1, all.len() as int);
                    assert(all.subrange(0, all.len() as int) =~= all);
                }
                return Err(e);
            },
        }
        i = i + 1;
    }
    assert(all.subrange(0, i as int) =~= all);
    Ok(decoder.finish())
}

/// A part whose field is not in the schema leaves the tree as it is,
/// whatever the part holds.
pub proof fn lemma_unknown_field_dropped(schema: SchemaModel, t: TreeModel, p: Part)
    requires
        p.name matches Some(n) && !has_key(schema, canonical_of(n@)),
    ensures
        step_part(schema, t, p) == Ok::<TreeModel, (Seq<char>, usize)>(t),
{
}

/// Values sent under an array field name are kept in arrival order: each
/// new one goes at the end of the field's list, and the first one makes a
/// list of one.
pub proof fn lemma_array_arrival_order(t: TreeModel, wire: Seq<char>, v: ValueModel)
    requires
        is_array_name(wire),
    ensures
        !has_key(t, canonical_of(wire)) ==> tree_insert(t, wire, v) == t.push(
            (canonical_of(wire), SlotModel::List(seq![v])),
        ),
        has_key(t, canonical_of(wire)) ==> (t[index_of(t, canonical_of(wire))].1 matches SlotModel::List(a)
            ==> tree_insert(t, wire, v)[index_of(t, canonical_of(wire))] == (
            canonical_of(wire),
            SlotModel::List(a.push(v)),
        )),
{
    let c = canonical_of(wire);
    if has_key(t, c) {
        lemma_index_of(t, c);
    }
}

/// Once the decode has failed, later parts do not change the outcome.
proof fn lemma_decode_settled(schema: SchemaModel, parts: Seq<Part>, j: int, k: int)
    requires
        0 <= j <= k <= parts.len(),
        decode_spec(schema, parts.subrange(0, j)) is Err,
    ensures
        decode_spec(schema, parts.subrange(0, k)) == decode_spec(schema, parts.subrange(0, j)),
    decreases k - j,
{
    if k > j {
        lemma_decode_settled(schema, parts, j, k - 1);
        assert(parts.subrange(0, k).drop_last() =~= parts.subrange(0, k - 1));
    }
}

} // verus!
