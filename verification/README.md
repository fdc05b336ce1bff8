# fshost matchers

Decides what is to be done about the block devices that appear on a machine: which driver to
attach, which filesystem to mount. Written in Verus; every contract is proved.

A product's `Config` says which devices are expected. `Matchers::new` builds the matchers for them,
in the order in which they are tried. `Matchers::match_device` is told that a device appeared, or
that a request was answered, and says what to do next: perform a request, or nothing more. Children
of devices that were already matched are offered to the child matchers of those first.

- `src/config.rs`, `src/constants.rs`: what is expected, and how it is recognised
- `src/device.rs`: what a matcher sees of a device, requests and answers
- `src/model.rs`: a matcher as a value: what it admits, what it checks, what it has done
- `src/matcher.rs`: the matchers
- `src/text.rs`, `src/matched.rs`: topological paths, and the map from matched paths to matchers
- `src/search.rs`, `src/matchers.rs`: the search for the matcher that takes a device
- `src/dialogue.rs`, `src/laws.rs`: what comes of a whole search
- `src/history.rs`: what holds over many searches, and of a product's configuration
- `src/runs.rs`: what a product's matchers take, over any number of devices
- `app/`: the asynchronous loop that performs the requests
