# tts_realtime

Backend of a realtime voice assistant: a chat socket that takes typed or
recorded queries, answers them with Gemini (streamed), and grounds the
answers in a small knowledge base searched by embeddings or keywords.

- `src/` is the verified library (Verus): the knowledge base (`rag`), the
  incremental parser of the model's streamed output (`stream`), the request
  bodies and URLs of the model API (`gemini`), the decisions of the HTTP and
  socket handlers (`handlers`), configuration (`config`) and the text
  utilities they rest on (`text`, `json`).
- `app/` is the server around it: axum routes, the websocket loop, HTTP
  calls, environment reading, and the floating-point scoring of search
  results.
- `tests/` exercises the library.
