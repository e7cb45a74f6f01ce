# forge

Lock-free structures, a work-stealing pool and an async runtime, verified with Verus.

## Idea

A concurrent algorithm is written here without its atomics. An operation is a small machine that
says which access to shared memory it wants next (`action`) and moves on when it is told the
outcome (`after`). The machines are executable and verified. The shared memory is a plain value
with an exact contract for each access.

Two things are proved:

* run on its own, an operation does to the structure what its contract says, stated over a
  mathematical view (a sequence, a multiset, a map);
* run by any number of threads in any interleaving, the machines of a structure keep an invariant
  at every moment, and with it what one relies on: no item is lost or taken twice, no two threads
  are in a critical section, no wake-up is lost, no freed cell is touched.

The second kind is stated in public proof functions, whose names begin with `law_`. Accesses to
shared memory are taken to happen one after the other.

## Layout

* `src/word.rs`: a word of shared memory, as a value and as an atomic.
* `src/lockfree/`: stack, queue, deque, hazard pointers, epochs, latch and barrier, semaphore,
  sequence lock, read-copy-update, the MCS and CLH locks, parking lot.
* `src/sched.rs`: the queues of many workers, and when a worker sleeps, wakes and ends.
* `src/pool/`: the two thread pools, the channel for one value, whole runs of a pool, parallel map,
  reduce, iteration and sort on a pool that may have other tasks.
* `src/rt/`: timers, futures and their combinators, coroutines, tasks, the executors.
* `tests/`: scenarios, among them the interleavings that break a careless version.
* `app/`: the same structures on threads, atomics and the timers of the system. It asks the library
  what to do next and does it.

## What is trusted

`atomic_wait` puts threads to sleep and wakes them up; nothing is claimed of its calls. Of the
standard library, `<[T]>::sort` is taken to do what its documentation says.
