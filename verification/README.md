# habit_tracker

A personal habit tracker. `src/` is the verified library: the tracker's data
(`tracker`), the text helpers it needs (`text`: trimming, case folding), the
menu decisions (`menu`) and the properties that relate its operations
(`laws`). `app/` is the interactive program around it: prompts, the
`habit_tracker.ron` data file (via serde and ron), today's date (via chrono)
and the percentage display, which uses floating point.
