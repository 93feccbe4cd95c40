# channel_queue

A message queue whose messages stand in a numbered store and are read by any number of
channels, each at its own pace. A message that was handed out to a channel has to be
acknowledged before its deadline, or it is handed out again. A queue comes back from its
checkpoint without missing a message that was not acknowledged.

* `src/` is the library, verified with Verus. It decides; it does no I/O.
  * `queue`: the queue, its checkpoint and what it tells of itself
  * `channel`: one reader
  * `in_flight`: the ids in flight, in a `LinkedHashMap`
  * `heap`: the least id that holds a channel back
  * `names`: a map ordered by channel name
  * `message`: a message
  * `laws`: what holds from call to call
  * `runs`: what holds over any run of calls: what is kept, what is owed, what `info` leaves
  * `deliveries`: what is handed out over any run of calls, and when
* `app/` puts the queue on a disk: the store, the directory, the checkpoint as JSON.
* `tests/` runs the library against a store in memory.
