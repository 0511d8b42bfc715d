//! The CoreAudio backend of macOS. It is a skeleton that settles on a format and is not linked
//! with the framework.
use crate::host::{HostAdapter, HostConfig, HostError, HostHandle, HostState};
use vstd::prelude::*;

verus! {

/// Why the backend cannot start.
pub const NOT_LINKED: &'static str = "参考骨架未链接 CoreAudio；生产实现见 §3.2.4";

pub struct CoreAudioAdapter {
    handle: Option<HostHandle>,
}

impl CoreAudioAdapter {
    pub fn new() -> (adapter: Self)
        ensures
            adapter.state() == HostState::start(),
            adapter.state().handle is None,
            !adapter.state().running,
    {
        Self { handle: None }
    }
}

impl Default for CoreAudioAdapter {
    fn default() -> (adapter: Self)
        ensures
            adapter.state() == HostState::start(),
            adapter.state().handle is None,
            !adapter.state().running,
    {
        Self::new()
    }
}

impl HostAdapter for CoreAudioAdapter {
    closed spec fn state(&self) -> HostState {
        HostState { handle: self.handle, running: false }
    }

    /// The block size is fixed.
    open spec fn block_size_varies(&self) -> bool {
        false
    }

    fn initialize(&mut self, config: HostConfig) -> (result: Result<HostHandle, HostError>)
        ensures
            result == Ok::<HostHandle, HostError>(HostHandle::preferred(config)),
            result matches Ok(handle) && handle.sample_rate == config.preferred_sample_rate
                && handle.block_size == config.preferred_block_size,
            final(self).state().handle matches Some(handle) && handle.sample_rate
                == config.preferred_sample_rate && handle.block_size == config.preferred_block_size,
            final(self).state().running == old(self).state().running,
    {
        let handle = HostHandle::from_preferred(&config);
        self.handle = Some(handle);
        Ok(handle)
    }

    /// There is nothing to start without the framework.
    fn start(&mut self) -> (result: Result<(), HostError>)
        ensures
            result == Err::<(), HostError>(HostError::Backend(NOT_LINKED)),
    {
        Err(HostError::Backend(NOT_LINKED))
    }

    fn stop(&mut self) -> (result: Result<(), HostError>)
        ensures
            result == Err::<(), HostError>(HostError::NotRunning),
    {
        Err(HostError::NotRunning)
    }

    fn current_block_size(&self) -> (size: usize)
        ensures
            self.state().handle matches Some(handle) ==> size == handle.block_size,
            self.state().handle is None ==> size == 0,
    {
        match self.handle {
            Some(handle) => handle.block_size,
            None => 0,
        }
    }

    fn current_sample_rate(&self) -> (rate: u32)
        ensures
            self.state().handle matches Some(handle) ==> rate == handle.sample_rate,
            self.state().handle is None ==> rate == 0,
    {
        match self.handle {
            Some(handle) => handle.sample_rate,
            None => 0,
        }
    }

    fn supports_dynamic_block_size(&self) -> (varies: bool)
        ensures
            !varies,
    {
        false
    }
}

} // verus!
