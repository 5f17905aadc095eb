//! What a worker does when a compaction of a region is over.

use vstd::prelude::*;

use crate::region::RegionId;

verus! {

/// A compaction that is over: the files that it wrote, and those that they stand for.
#[derive(Debug)]
pub struct CompactionFinished<F> {
    pub region_id: RegionId,
    pub compaction_outputs: Vec<F>,
    pub compacted_files: Vec<F>,
}

/// A change of the files of a region.
#[derive(Debug)]
pub struct RegionEdit<F> {
    pub files_to_add: Vec<F>,
    pub files_to_remove: Vec<F>,
    pub compaction_time_window: Option<i64>,
    pub flushed_entry_id: Option<u64>,
}

/// Why a compaction that is over has no effect.
#[derive(Debug)]
pub enum CompactionError<E> {
    RegionNotFound { region_id: RegionId },
    /// The change could not be written to the manifest.
    Manifest(E),
}

/// What is done about a compaction that is over.
#[derive(Debug)]
pub enum CompactionAction<F, E> {
    /// Those who wait are told that it failed.
    Fail(CompactionError<E>),
    /// The change is written to the manifest of the region.
    UpdateManifest(RegionEdit<F>),
    /// The change is made in the region.
    ApplyEdit(RegionEdit<F>),
}

/// What is done about a compaction that is over: the files that it wrote are added to the
/// region, where there is one, and those that they stand for are removed.
pub fn handle_compaction_finished<F, E>(
    region_found: bool,
    request: CompactionFinished<F>,
) -> (r: CompactionAction<F, E>)
    ensures
        r == if region_found {
            CompactionAction::<F, E>::UpdateManifest(
                RegionEdit {
                    files_to_add: request.compaction_outputs,
                    files_to_remove: request.compacted_files,
                    compaction_time_window: None,
                    flushed_entry_id: None,
                },
            )
        } else {
            CompactionAction::<F, E>::Fail(
                CompactionError::RegionNotFound { region_id: request.region_id },
            )
        },
{
    if !region_found {
        return CompactionAction::Fail(
            CompactionError::RegionNotFound { region_id: request.region_id },
        );
    }
    CompactionAction::UpdateManifest(
        RegionEdit {
            files_to_add: request.compaction_outputs,
            files_to_remove: request.compacted_files,
            compaction_time_window: None,
            flushed_entry_id: None,
        },
    )
}

/// What is done when the change was to be written to the manifest: only what stands there is
/// made in the region.
pub fn manifest_updated<F, E>(edit: RegionEdit<F>, updated: Result<(), E>) -> (r: CompactionAction<
    F,
    E,
>)
    ensures
        r == (match updated {
            Ok(_) => CompactionAction::<F, E>::ApplyEdit(edit),
            Err(e) => CompactionAction::<F, E>::Fail(CompactionError::Manifest(e)),
        }),
{
    match updated {
        Ok(_) => CompactionAction::ApplyEdit(edit),
        Err(e) => CompactionAction::Fail(CompactionError::Manifest(e)),
    }
}

/// A region, as far as a compaction needs it.
pub struct CompactedRegion<M, V, A, P> {
    pub region_id: RegionId,
    pub metadata: M,
    pub version: V,
    pub access_layer: A,
    pub file_purger: P,
}

/// Asks for a region to be compacted.
pub struct CompactionRequest<M, V, A, P, S, W> {
    pub region_id: RegionId,
    pub region_metadata: M,
    pub current_version: V,
    pub access_layer: A,
    pub ttl: Option<u64>,
    pub compaction_time_window: Option<i64>,
    pub request_sender: S,
    pub waiters: Vec<W>,
    pub file_purger: P,
}

/// The request to compact a region, without a limit to the age of rows and without a window of
/// time, for the end of which `waiters` wait.
pub fn new_compaction_request<M, V, A, P, S, W>(
    region: CompactedRegion<M, V, A, P>,
    request_sender: S,
    waiters: Vec<W>,
) -> (r: CompactionRequest<M, V, A, P, S, W>)
    ensures
        r == (CompactionRequest {
            region_id: region.region_id,
            region_metadata: region.metadata,
            current_version: region.version,
            access_layer: region.access_layer,
            ttl: None,
            compaction_time_window: None,
            request_sender,
            waiters,
            file_purger: region.file_purger,
        }),
{
    CompactionRequest {
        region_id: region.region_id,
        region_metadata: region.metadata,
        current_version: region.version,
        access_layer: region.access_layer,
        ttl: None,
        compaction_time_window: None,
        request_sender,
        waiters,
        file_purger: region.file_purger,
    }
}

/// A compaction that is over replaces the files that it read by those that it wrote, where its
/// region is still there, and changes nothing else of the region; else it fails, and names the
/// region.
pub proof fn law_compaction_replaces_files<F, E>(
    region_found: bool,
    request: CompactionFinished<F>,
    r: CompactionAction<F, E>,
)
    requires
        call_ensures(handle_compaction_finished::<F, E>, (region_found, request), r),
    ensures
        region_found ==> (r matches CompactionAction::UpdateManifest(edit) && edit.files_to_add@
            == request.compaction_outputs@ && edit.files_to_remove@ == request.compacted_files@
            && edit.compaction_time_window is None && edit.flushed_entry_id is None),
        !region_found ==> (r matches CompactionAction::Fail(
            CompactionError::RegionNotFound { region_id },
        ) && region_id == request.region_id),
{
}

/// Only a change that stands in the manifest is made in the region, and it is that very change;
/// one that could not be written fails the compaction, with the reason.
pub proof fn law_only_what_is_written_is_made<F, E>(
    edit: RegionEdit<F>,
    updated: Result<(), E>,
    r: CompactionAction<F, E>,
)
    requires
        call_ensures(manifest_updated::<F, E>, (edit, updated), r),
    ensures
        updated is Ok ==> (r matches CompactionAction::ApplyEdit(made) && made == edit),
        updated matches Err(reason) ==> (r matches CompactionAction::Fail(
            CompactionError::Manifest(told),
        ) && told == reason),
{
}

/// A request to compact a region is for that region as it is now, and for those who wait.
pub proof fn law_request_is_for_the_region<M, V, A, P, S, W>(
    region: CompactedRegion<M, V, A, P>,
    request_sender: S,
    waiters: Vec<W>,
    r: CompactionRequest<M, V, A, P, S, W>,
)
    requires
        call_ensures(
            new_compaction_request::<M, V, A, P, S, W>,
            (region, request_sender, waiters),
            r,
        ),
    ensures
        r.region_id == region.region_id,
        r.region_metadata == region.metadata,
        r.current_version == region.version,
        r.access_layer == region.access_layer,
        r.file_purger == region.file_purger,
        r.request_sender == request_sender,
        r.waiters@ == waiters@,
        r.ttl is None,
        r.compaction_time_window is None,
{
}

} // verus!
