//! What every audio backend has in common, and one that plays nothing.
use vstd::prelude::*;

verus! {

/// What is asked of a backend.
#[derive(Debug, Clone)]
pub struct HostConfig {
    pub preferred_sample_rate: u32,
    pub preferred_block_size: usize,
    pub min_block_size: usize,
    pub max_block_size: usize,
    pub num_input_channels: u16,
    pub num_output_channels: u16,
}

impl Default for HostConfig {
    fn default() -> (config: Self)
        ensures
            config == (HostConfig {
                preferred_sample_rate: 96_000,
                preferred_block_size: 512,
                min_block_size: 64,
                max_block_size: 4096,
                num_input_channels: 2,
                num_output_channels: 2,
            }),
    {
        Self {
            preferred_sample_rate: 96_000,
            preferred_block_size: 512,
            min_block_size: 64,
            max_block_size: 4096,
            num_input_channels: 2,
            num_output_channels: 2,
        }
    }
}

/// Why a backend did not do what it was asked.
#[derive(Debug)]
pub enum HostError {
    DeviceUnavailable,
    Unsupported,
    AlreadyRunning,
    NotRunning,
    Backend(&'static str),
}

/// What a backend settled on.
#[derive(Debug, Clone, Copy, PartialEq, Eq, Structural)]
pub struct HostHandle {
    pub sample_rate: u32,
    pub block_size: usize,
}

impl HostHandle {
    /// The handle of a backend that settles on just what is preferred.
    pub open spec fn preferred(config: HostConfig) -> HostHandle {
        HostHandle {
            sample_rate: config.preferred_sample_rate,
            block_size: config.preferred_block_size,
        }
    }

    /// Settles on just what is preferred.
    pub fn from_preferred(config: &HostConfig) -> (handle: Self)
        ensures
            handle == HostHandle::preferred(*config),
            handle.sample_rate == config.preferred_sample_rate,
            handle.block_size == config.preferred_block_size,
    {
        Self {
            sample_rate: config.preferred_sample_rate,
            block_size: config.preferred_block_size,
        }
    }
}

/// What a backend is up to at one moment.
pub struct HostState {
    /// What was settled on; nothing before the backend is initialized.
    pub handle: Option<HostHandle>,
    pub running: bool,
}

impl HostState {
    /// Before the backend is initialized.
    pub open spec fn start() -> HostState {
        HostState { handle: None, running: false }
    }

    /// The backend after it has begun to play.
    pub open spec fn started(self) -> HostState {
        HostState { running: true, ..self }
    }

    /// The backend after it has stopped playing.
    pub open spec fn stopped(self) -> HostState {
        HostState { running: false, ..self }
    }

    /// The block size that was settled on, 0 if there is none.
    pub open spec fn block_size(self) -> usize {
        match self.handle {
            Some(handle) => handle.block_size,
            None => 0,
        }
    }

    /// The sample rate that was settled on, 0 if there is none.
    pub open spec fn sample_rate(self) -> u32 {
        match self.handle {
            Some(handle) => handle.sample_rate,
            None => 0,
        }
    }
}

/// A bridge to the audio system of a platform.
pub trait HostAdapter: Send + 'static {
    spec fn state(&self) -> HostState;

    /// The block size may change while the backend runs.
    spec fn block_size_varies(&self) -> bool;

    /// Settles on a sample rate and a block size.
    fn initialize(&mut self, config: HostConfig) -> (result: Result<HostHandle, HostError>)
        ensures
            result is Ok ==> final(self).state() == (HostState {
                handle: Some(result->Ok_0),
                ..old(self).state()
            }),
            result is Err ==> final(self).state() == old(self).state(),
            final(self).block_size_varies() == old(self).block_size_varies(),
    ;

    /// Begins to play.
    fn start(&mut self) -> (result: Result<(), HostError>)
        ensures
            result is Ok ==> !old(self).state().running && final(self).state() == old(
                self,
            ).state().started(),
            result is Err ==> final(self).state() == old(self).state(),
            final(self).block_size_varies() == old(self).block_size_varies(),
    ;

    /// Stops playing.
    fn stop(&mut self) -> (result: Result<(), HostError>)
        ensures
            result is Ok ==> old(self).state().running && final(self).state() == old(
                self,
            ).state().stopped(),
            result is Err ==> final(self).state() == old(self).state(),
            final(self).block_size_varies() == old(self).block_size_varies(),
    ;

    /// The block size that was settled on, 0 if there is none.
    fn current_block_size(&self) -> (size: usize)
        ensures
            size == self.state().block_size(),
    ;

    /// The sample rate that was settled on, 0 if there is none.
    fn current_sample_rate(&self) -> (rate: u32)
        ensures
            rate == self.state().sample_rate(),
    ;

    /// Whether the block size may change while the backend runs.
    fn supports_dynamic_block_size(&self) -> (varies: bool)
        ensures
            varies == self.block_size_varies(),
    ;
}

/// A backend that plays nothing, for offline rendering and tests.
pub struct NullAdapter {
    handle: Option<HostHandle>,
    running: bool,
}

impl NullAdapter {
    pub fn new() -> (adapter: Self)
        ensures
            adapter.state() == HostState::start(),
            adapter.state().handle is None,
            !adapter.state().running,
    {
        Self { handle: None, running: false }
    }
}

impl Default for NullAdapter {
    fn default() -> (adapter: Self)
        ensures
            adapter.state() == HostState::start(),
            adapter.state().handle is None,
            !adapter.state().running,
    {
        Self::new()
    }
}

impl HostAdapter for NullAdapter {
    closed spec fn state(&self) -> HostState {
        HostState { handle: self.handle, running: self.running }
    }

    open spec fn block_size_varies(&self) -> bool {
        true
    }

    fn initialize(&mut self, config: HostConfig) -> (result: Result<HostHandle, HostError>)
        ensures
            result == Ok::<HostHandle, HostError>(HostHandle::preferred(config)),
            result matches Ok(handle) && handle.sample_rate == config.preferred_sample_rate
                && handle.block_size == config.preferred_block_size,
            final(self).state().handle matches Some(handle) && handle.sample_rate
                == config.preferred_sample_rate && handle.block_size == config.preferred_block_size,
            final(self).state().running == old(self).state().running,
    {
        let handle = HostHandle::from_preferred(&config);
        self.handle = Some(handle);
        Ok(handle)
    }

    fn start(&mut self) -> (result: Result<(), HostError>)
        ensures
            result == if old(self).state().handle is None {
                Err(HostError::NotRunning)
            } else if old(self).state().running {
                Err(HostError::AlreadyRunning)
            } else {
                Ok(())
            },
            final(self).state().handle == old(self).state().handle,
            result is Ok ==> !old(self).state().running && final(self).state().running,
            result is Err ==> final(self).state().running == old(self).state().running,
    {
        if self.handle.is_none() {
            return Err(HostError::NotRunning);
        }
        if self.running {
            return Err(HostError::AlreadyRunning);
        }
        self.running = true;
        Ok(())
    }

    fn stop(&mut self) -> (result: Result<(), HostError>)
        ensures
            result == if old(self).state().running {
                Ok(())
            } else {
                Err(HostError::NotRunning)
            },
            final(self).state().handle == old(self).state().handle,
            !final(self).state().running,
    {
        if !self.running {
            return Err(HostError::NotRunning);
        }
        self.running = false;
        Ok(())
    }

    fn current_block_size(&self) -> (size: usize)
        ensures
            self.state().handle matches Some(handle) ==> size == handle.block_size,
            self.state().handle is None ==> size == 0,
    {
        match self.handle {
            Some(handle) => handle.block_size,
            None => 0,
        }
    }

    fn current_sample_rate(&self) -> (rate: u32)
        ensures
            self.state().handle matches Some(handle) ==> rate == handle.sample_rate,
            self.state().handle is None ==> rate == 0,
    {
        match self.handle {
            Some(handle) => handle.sample_rate,
            None => 0,
        }
    }

    fn supports_dynamic_block_size(&self) -> (varies: bool)
        ensures
            varies,
    {
        true
    }
}

/// A backend that begins to play and stops again is what it was before; one that stops
/// and begins to play again is, too.
pub proof fn law_stop_undoes_start(host: HostState)
    ensures
        !host.running ==> host.started().stopped() == host,
        host.running ==> host.stopped().started() == host,
{
}

/// To begin or to stop playing changes nothing but whether the backend plays, and the sizes are
/// those of the handle, or 0 without one.
pub proof fn law_playing_keeps_the_format(host: HostState, config: HostConfig)
    ensures
        HostState::start().handle is None && !HostState::start().running,
        host.started().running && host.started().handle == host.handle,
        !host.stopped().running && host.stopped().handle == host.handle,
        host.handle is None ==> host.block_size() == 0 && host.sample_rate() == 0,
        host.handle matches Some(handle) ==> host.block_size() == handle.block_size
            && host.sample_rate() == handle.sample_rate,
        HostHandle::preferred(config).sample_rate == config.preferred_sample_rate,
        HostHandle::preferred(config).block_size == config.preferred_block_size,
{
}

} // verus!
