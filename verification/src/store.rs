//! The store: an index that is always the replay of the log behind it.
//!
//! The store does no I/O of its own. Whoever holds the log file appends the
//! record of a mutation (`codec::encode`), forces it to disk, and then hands
//! the outcome of that write to `set` or `remove`, which decides what becomes
//! of the index. A mutation reaches the index only after its record is
//! durable.

use crate::command::CommandView;
use crate::error::KvsError;
use crate::index::{replay_spec, Index};
use crate::log::{command_views, parse_log, replay};
use vstd::prelude::*;

verus! {

/// A key-value store whose contents are the replay of a log.
pub struct KvStore {
    index: Index,
    history: Ghost<Seq<CommandView>>,
}

impl View for KvStore {
    type V = Map<Seq<char>, Seq<char>>;

    closed spec fn view(&self) -> Map<Seq<char>, Seq<char>> {
        self.index@
    }
}

impl KvStore {
    /// The commands that the log behind this store holds, oldest first.
    pub closed spec fn history(&self) -> Seq<CommandView> {
        self.history@
    }

    /// The store holds exactly what replaying its log from nothing gives.
    pub open spec fn wf(&self) -> bool {
        self@ == replay_spec(Map::empty(), self.history())
    }

    /// Opens a store on the bytes of its log file; an empty or missing file
    /// is the empty log. Every record is replayed into a fresh index. A log
    /// that is not complete records from end to end fails with `Serde`, and
    /// no store comes into being.
    pub fn open(log: &[u8]) -> (r: Result<KvStore, KvsError>)
        ensures
            match parse_log(log@) {
                Some(cmds) => r matches Ok(store) && store.wf() && store.history() == cmds,
                None => r matches Err(e) && e is Serde,
            },
    {
        let mut index = Index::new();
        match KvStore::load(log, &mut index) {
            Ok(()) => Ok(KvStore { index, history: Ghost(parse_log(log@).unwrap()) }),
            Err(e) => Err(e),
        }
    }

    /// Replays the log into `index`, in log order. On an unreadable log the
    /// index is left as it was.
    pub fn load(log: &[u8], index: &mut Index) -> (r: Result<(), KvsError>)
        ensures
            match parse_log(log@) {
                Some(cmds) => r is Ok && final(index)@ == replay_spec(old(index)@, cmds),
                None => r matches Err(e) && e is Serde && final(index)@ == old(index)@,
            },
    {
        let commands = match replay(log) {
            Ok(commands) => commands,
            Err(e) => {
                return Err(e);
            },
        };
        let ghost views = command_views(commands@);
        let mut i: usize = 0;
        assert(views.take(0) =~= Seq::<CommandView>::empty());
        while i < commands.len()
            invariant
                i <= commands.len(),
                views == command_views(commands@),
                index@ == replay_spec(old(index)@, views.take(i as int)),
            decreases commands.len() - i,
        {
            proof {
                let next = views.take(i + 1);
                assert(next.drop_last() =~= views.take(i as int));
                assert(next.last() == commands@[i as int]@);
            }
            index.apply(&commands[i]);
            i = i + 1;
        }
        assert(views.take(i as int) =~= views);
        Ok(())
    }

    /// The value of `key`, or `None` where the store holds none. Reads the
    /// index alone and never fails.
    pub fn get(&self, key: String) -> (r: Result<Option<String>, KvsError>)
        ensures
            r matches Ok(found) && match found {
                Some(value) => self@.contains_key(key@) && value@ == self@[key@],
                None => !self@.contains_key(key@),
            },
    {
        Ok(self.index.get(key.as_str()))
    }

    /// Completes a `set` whose `Put` record the caller tried to append.
    /// Where the append succeeded the key is bound to the value; where it
    /// failed the store is unchanged and the failure is returned as `Io`.
    pub fn set(&mut self, key: String, value: String, appended: Result<(), std::io::Error>) -> (r:
        Result<(), KvsError>)
        requires
            old(self).wf(),
        ensures
            final(self).wf(),
            match appended {
                Ok(_) => r is Ok && final(self)@ == old(self)@.insert(key@, value@)
                    && final(self).history() == old(self).history().push(
                    CommandView::Put { key: key@, value: value@ },
                ),
                Err(e) => r == Err::<(), KvsError>(KvsError::Io(e)) && final(self)@ == old(self)@
                    && final(self).history() == old(self).history(),
            },
    {
        match appended {
            Ok(_) => {
                let ghost command = CommandView::Put { key: key@, value: value@ };
                proof {
                    let after = self.history@.push(command);
                    assert(after.drop_last() =~= self.history@);
                }
                self.index.set(key, value);
                self.history = Ghost(self.history@.push(command));
                Ok(())
            },
            Err(e) => Err(KvsError::Io(e)),
        }
    }

    /// Completes a `remove` whose `Remove` record the caller tried to
    /// append. Where the append failed the store is unchanged and the failure
    /// is returned as `Io`. Where it succeeded the key is gone from the
    /// store, and the call fails with `KeyNotFound` exactly if the store did
    /// not hold it: the record stays in the log either way.
    pub fn remove(&mut self, key: String, appended: Result<(), std::io::Error>) -> (r: Result<
        (),
        KvsError,
    >)
        requires
            old(self).wf(),
        ensures
            final(self).wf(),
            match appended {
                Ok(_) => final(self)@ == old(self)@.remove(key@) && final(self).history() == old(
                    self,
                ).history().push(CommandView::Remove { key: key@ }) && if old(self)@.contains_key(
                    key@,
                ) {
                    r is Ok
                } else {
                    r matches Err(e) && e is KeyNotFound
                },
                Err(e) => r == Err::<(), KvsError>(KvsError::Io(e)) && final(self)@ == old(self)@
                    && final(self).history() == old(self).history(),
            },
    {
        match appended {
            Ok(_) => {
                let ghost command = CommandView::Remove { key: key@ };
                proof {
                    let after = self.history@.push(command);
                    assert(after.drop_last() =~= self.history@);
                }
                let present = self.index.remove(key.as_str());
                self.history = Ghost(self.history@.push(command));
                if present {
                    Ok(())
                } else {
                    Err(KvsError::KeyNotFound)
                }
            },
            Err(e) => Err(KvsError::Io(e)),
        }
    }
}

} // verus!
