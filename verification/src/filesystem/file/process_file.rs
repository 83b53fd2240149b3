//! Process files: where the result of a process can be read.

use vstd::prelude::*;
use crate::filesystem::FileClientId;
use crate::filesystem::file::{chunk, filled, ByteStreams, CloseAction, CloseStep, ReadStep, WriteStep};
use crate::filesystem::result::{ErrorCode, IoResult};
use crate::multitasking::waitfor::WaitFor;
use crate::process::ProcessId;

verus! {

/// The state of a process file, as plain values.
pub struct ProcessFileView {
    /// The process that the file is about.
    pub pid: ProcessId,
    /// The client for which the process was started.
    pub owner: FileClientId,
    /// The encoded result of the process, once it is over.
    pub status: Option<Seq<u8>>,
    /// What each client that has begun to read the result has still to
    /// read of it.
    pub readers: Map<FileClientId, Seq<u8>>,
}

impl ProcessFileView {
    /// A read by `fc` into a buffer of `capacity` bytes: a wait while the
    /// process runs, then the next bytes of its result.
    pub open spec fn read(self, fc: FileClientId, capacity: nat) -> ReadStep<ProcessFileView> {
        match self.status {
            Some(status) => {
                let stream = if self.readers.contains_key(fc) {
                    self.readers[fc]
                } else {
                    status
                };
                let n = chunk(capacity as int, stream.len() as int);
                ReadStep {
                    post: ProcessFileView {
                        readers: self.readers.insert(fc, stream.subrange(n, stream.len() as int)),
                        ..self
                    },
                    minted: 0,
                    result: IoResult::Success(n as usize),
                    data: stream.subrange(0, n),
                }
            },
            None => ReadStep {
                post: self,
                minted: 0,
                result: IoResult::RepeatAfter(WaitFor::Process(self.pid)),
                data: Seq::empty(),
            },
        }
    }

    /// A write of `bytes` by `fc`: the kernel, and nobody else, sets the
    /// result, once.
    pub open spec fn write(self, fc: FileClientId, bytes: Seq<u8>) -> WriteStep<ProcessFileView> {
        if fc.process.is_none() && self.status.is_none() {
            WriteStep {
                post: ProcessFileView { status: Some(bytes), ..self },
                result: IoResult::Success(bytes.len() as usize),
            }
        } else {
            WriteStep { post: self, result: IoResult::Error(ErrorCode::fs_readonly) }
        }
    }

    /// A close by `fc`: the client's place in the result is forgotten.
    pub open spec fn close(self, fc: FileClientId) -> CloseStep<ProcessFileView> {
        CloseStep {
            post: ProcessFileView { readers: self.readers.remove(fc), ..self },
            result: IoResult::Success(CloseAction::Normal),
        }
    }
}

/// The file of one process. Reading it waits for the process to be over and
/// then gives its result.
pub struct ProcessFile {
    pid: ProcessId,
    owner: FileClientId,
    status: Option<Vec<u8>>,
    readers: ByteStreams,
}

impl ProcessFile {
    /// The file as plain values.
    pub closed spec fn view(&self) -> ProcessFileView {
        ProcessFileView {
            pid: self.pid,
            owner: self.owner,
            status: match self.status {
                Some(status) => Some(status@),
                None => None,
            },
            readers: self.readers@,
        }
    }

    /// What holds of a process file between any two operations.
    pub closed spec fn wf(&self) -> bool {
        self.readers.wf()
    }

    /// The file of a process that runs.
    pub fn new(pid: ProcessId, owner: FileClientId) -> (file: Self)
        ensures
            file.wf(),
            file@ == (ProcessFileView { pid, owner, status: None, readers: Map::empty() }),
    {
        ProcessFile { pid, owner, status: None, readers: ByteStreams::new() }
    }

    /// The process that the file is about.
    pub fn pid(&self) -> (pid: ProcessId)
        ensures
            pid == self@.pid,
    {
        self.pid
    }

    /// Whether the process is over.
    pub fn is_over(&self) -> (b: bool)
        ensures
            b == self@.status.is_some(),
    {
        self.status.is_some()
    }

    /// Reads the next bytes of the result, once there is one.
    pub fn read(&mut self, fc: FileClientId, buf: &mut [u8]) -> (result: IoResult<usize>)
        requires
            old(self).wf(),
        ensures
            final(self).wf(),
            final(self)@ == old(self)@.read(fc, old(buf)@.len()).post,
            result == old(self)@.read(fc, old(buf)@.len()).result,
            final(buf)@ == filled(
                old(buf)@,
                old(self)@.read(fc, old(buf)@.len()).data,
                old(self)@.read(fc, old(buf)@.len()).data.len() as int,
            ),
    {
        match &self.status {
            Some(status) => {
                if !self.readers.contains(fc) {
                    let copy = status.clone();
                    self.readers.put(fc, copy);
                }
                let n = match self.readers.read(fc, buf) {
                    Some(n) => n,
                    None => 0,
                };
                assert(self@.readers =~= old(self)@.read(fc, old(buf)@.len()).post.readers);
                assert(final(buf)@ =~= filled(
                    old(buf)@,
                    old(self)@.read(fc, old(buf)@.len()).data,
                    n as int,
                ));
                IoResult::Success(n)
            },
            None => {
                assert(buf@ =~= filled(old(buf)@, Seq::<u8>::empty(), 0));
                IoResult::RepeatAfter(WaitFor::Process(self.pid))
            },
        }
    }

    /// Sets the result of the process.
    pub fn write(&mut self, fc: FileClientId, buf: &[u8]) -> (result: IoResult<usize>)
        requires
            old(self).wf(),
        ensures
            final(self).wf(),
            final(self)@ == old(self)@.write(fc, buf@).post,
            result == old(self)@.write(fc, buf@).result,
    {
        if fc.is_kernel() && self.status.is_none() {
            self.status = Some(vstd::slice::slice_to_vec(buf));
            IoResult::Success(buf.len())
        } else {
            IoResult::Error(ErrorCode::fs_readonly)
        }
    }

    /// Forgets how far `fc` has read.
    pub fn close(&mut self, fc: FileClientId) -> (result: IoResult<CloseAction>)
        requires
            old(self).wf(),
        ensures
            final(self).wf(),
            final(self)@ == old(self)@.close(fc).post,
            result == old(self)@.close(fc).result,
    {
        self.readers.remove(fc);
        IoResult::Success(CloseAction::Normal)
    }
}

} // verus!
